use stack_minimax::engine::{Node, NodeState};
use stack_minimax::game::{Color, GameMove, GameState};
use stack_minimax::score::Score;

fn place(size: usize, r: usize, c: usize) -> GameMove {
    GameMove::Place { size, dest: (r, c) }
}

fn leaf_with_score(score: Score, turn: Color) -> Node {
    Node { score, turn, state: NodeState::GameState(GameState::new()) }
}

#[test]
fn new_node_carries_static_score_and_turn() {
    let g = GameState::new();
    let n = Node::new(g);
    assert_eq!(n.score, g.raw_score());
    assert_eq!(n.turn, Color::White);
    match n.state {
        NodeState::GameState(held) => assert_eq!(held, g),
        _ => panic!("a fresh node must wrap its position"),
    }
}

#[test]
fn expand_one_ply_from_start() {
    let g = GameState::new();
    let reference = g.branch();
    let mut root = Node::new(g);
    root.branch(1);
    match &root.state {
        NodeState::Branches(children) => {
            // One child per legal move: 16 cells x 4 sizes, no relocations.
            assert_eq!(children.len(), 64);
            assert_eq!(children.len(), reference.len());
            for (i, (m, child)) in children.iter().enumerate() {
                assert_eq!(*m, reference[i].0);
                // At depth 1 each child keeps its own static evaluation.
                assert_eq!(child.score, reference[i].1.raw_score());
                assert_eq!(child.turn, Color::Black);
            }
        }
        _ => panic!("expanding a fresh start node must produce children"),
    }
    // White to move at the root: the root's score is the maximum child score.
    let mut best = reference[0].1.raw_score();
    for (_, c) in &reference {
        let s = c.raw_score();
        if best.ranks_below(s) {
            best = s;
        }
    }
    assert_eq!(root.score, best);
}

#[test]
fn update_score_backs_up_max_for_white() {
    let mut root = Node {
        score: Score::Balanced(0),
        turn: Color::White,
        state: NodeState::Branches(vec![
            (place(0, 0, 0), leaf_with_score(Score::Balanced(3), Color::Black)),
            (place(1, 0, 0), leaf_with_score(Score::Balanced(-8), Color::Black)),
            (place(2, 0, 0), leaf_with_score(Score::Balanced(7), Color::Black)),
        ]),
    };
    root.update_score();
    assert_eq!(root.score, Score::Balanced(7));
    assert!(matches!(root.state, NodeState::Branches(_)));
}

#[test]
fn update_score_backs_up_min_for_black() {
    let mut root = Node {
        score: Score::Balanced(0),
        turn: Color::Black,
        state: NodeState::Branches(vec![
            (place(0, 0, 0), leaf_with_score(Score::Balanced(3), Color::White)),
            (place(1, 0, 0), leaf_with_score(Score::Balanced(-8), Color::White)),
            (place(2, 0, 0), leaf_with_score(Score::Balanced(7), Color::White)),
        ]),
    };
    root.update_score();
    assert_eq!(root.score, Score::Balanced(-8));
}

#[test]
fn update_score_resolves_on_backed_up_win() {
    let mut root = Node {
        score: Score::Balanced(0),
        turn: Color::White,
        state: NodeState::Branches(vec![
            (place(0, 0, 0), leaf_with_score(Score::Balanced(1), Color::Black)),
            (place(1, 0, 0), leaf_with_score(Score::WhiteFavored, Color::Black)),
        ]),
    };
    root.update_score();
    assert_eq!(root.score, Score::WhiteFavored);
    assert!(matches!(root.state, NodeState::Resolved));
}

#[test]
fn two_ply_backup_on_hand_built_tree() {
    // Black to move at the root; white to move at each child. The children
    // carry known leaf scores; backing up must take the maximum at each
    // white child and the minimum at the black root.
    let mut child_a = Node {
        score: Score::Balanced(0),
        turn: Color::White,
        state: NodeState::Branches(vec![
            (place(0, 1, 1), leaf_with_score(Score::Balanced(4), Color::Black)),
            (place(1, 1, 1), leaf_with_score(Score::Balanced(9), Color::Black)),
        ]),
    };
    let mut child_b = Node {
        score: Score::Balanced(0),
        turn: Color::White,
        state: NodeState::Branches(vec![
            (place(0, 2, 2), leaf_with_score(Score::Balanced(-2), Color::Black)),
            (place(1, 2, 2), leaf_with_score(Score::Balanced(5), Color::Black)),
        ]),
    };
    child_a.update_score();
    child_b.update_score();
    assert_eq!(child_a.score, Score::Balanced(9));
    assert_eq!(child_b.score, Score::Balanced(5));
    let mut root = Node {
        score: Score::Balanced(0),
        turn: Color::Black,
        state: NodeState::Branches(vec![(place(0, 0, 0), child_a), (place(0, 3, 3), child_b)]),
    };
    root.update_score();
    // child_a backed up to 9, child_b to 5; black picks the minimum.
    assert_eq!(root.score, Score::Balanced(5));
    match &root.state {
        NodeState::Branches(children) => {
            assert_eq!(children[0].1.score, Score::Balanced(9));
            assert_eq!(children[1].1.score, Score::Balanced(5));
        }
        _ => panic!("the root must stay expanded"),
    }
}

#[test]
fn shallow_expand_is_a_no_op() {
    let mut root = Node {
        score: Score::Balanced(13),
        turn: Color::White,
        state: NodeState::Branches(vec![(
            place(0, 0, 0),
            leaf_with_score(Score::Balanced(-1), Color::Black),
        )]),
    };
    root.branch(1);
    // Depth 1 on an expanded node alters nothing, not even a stale score.
    assert_eq!(root.score, Score::Balanced(13));
    match &root.state {
        NodeState::Branches(children) => {
            assert_eq!(children.len(), 1);
            assert_eq!(children[0].1.score, Score::Balanced(-1));
        }
        _ => panic!("a shallow expand must not change the state"),
    }
}

#[test]
fn resolved_node_never_changes() {
    let mut n = Node { score: Score::WhiteFavored, turn: Color::Black, state: NodeState::Resolved };
    n.branch(4);
    assert_eq!(n.score, Score::WhiteFavored);
    assert!(matches!(n.state, NodeState::Resolved));
}

#[test]
fn won_leaf_resolves_without_children() {
    let mut g = GameState::new();
    // Hand black a full top row; white is to move, so black just moved.
    for c in 0..4 {
        g.board.cells[c].pieces[0] = Color::Black;
    }
    g.turn = Color::White;
    let mut n = Node::new(g);
    assert_eq!(n.score, Score::BlackFavored);
    n.branch(3);
    assert!(matches!(n.state, NodeState::Resolved));
    assert_eq!(n.score, Score::BlackFavored);
    // Deeper calls stay no-ops.
    n.branch(6);
    assert_eq!(n.score, Score::BlackFavored);
    assert!(matches!(n.state, NodeState::Resolved));
}

#[test]
fn deeper_expansion_finds_a_forced_win() {
    let mut g = GameState::new();
    // Three black tops on the top row; black to move can complete the row.
    for c in 0..3 {
        g.board.cells[c].pieces[0] = Color::Black;
    }
    g.turn = Color::Black;
    let mut root = Node::new(g);
    root.branch(1);
    // Some black reply wins at once, so the minimum backs up a black win
    // and the root resolves.
    assert_eq!(root.score, Score::BlackFavored);
    assert!(matches!(root.state, NodeState::Resolved));
}

#[test]
fn full_board_expands_to_no_children_and_keeps_its_score() {
    let mut g = GameState::new();
    // Fill every slot of every stack: no placement or relocation is legal.
    // The pattern (rows of WWBB and BBWW alternating) leaves every row,
    // column, and diagonal mixed, so neither side has a winning line and
    // the static score stays heuristic.
    for r in 0..4 {
        for c in 0..4 {
            let color = if (r + c / 2) % 2 == 0 { Color::White } else { Color::Black };
            for size in 0..4 {
                g.board.cells[r * 4 + c].pieces[size] = color;
            }
        }
    }
    assert!(g.branch().is_empty());
    let static_score = g.raw_score();
    let mut n = Node::new(g);
    n.branch(3);
    assert_eq!(n.score, static_score);
    match &n.state {
        NodeState::Branches(children) => assert!(children.is_empty()),
        _ => panic!("a full board expands to an empty children list"),
    }
    // Deepening changes nothing further.
    n.branch(5);
    assert_eq!(n.score, static_score);
}

#[test]
fn incremental_deepening_matches_direct_expansion() {
    let g = GameState::new();
    let mut step = Node::new(g);
    step.branch(1);
    step.branch(2);
    let mut direct = Node::new(g);
    direct.branch(2);
    assert_eq!(step.score, direct.score);
}

#[test]
fn two_ply_search_matches_recomputed_minimax() {
    let g = GameState::new();
    let mut root = Node::new(g);
    root.branch(2);
    // Recompute the two-ply value without the engine's recursion: white
    // maximizes at the root over each child's value; a child whose static
    // score is already a win keeps it, otherwise black minimizes over the
    // grandchildren's static scores.
    let mut best: Option<Score> = None;
    for (_, child) in &g.branch() {
        let child_static = child.raw_score();
        let child_value = if child_static == Score::WhiteFavored
            || child_static == Score::BlackFavored
        {
            child_static
        } else {
            let grandchildren = child.branch();
            let mut worst: Option<Score> = None;
            for (_, gc) in &grandchildren {
                let s = gc.raw_score();
                worst = Some(match worst {
                    None => s,
                    Some(w) => {
                        if s.ranks_below(w) {
                            s
                        } else {
                            w
                        }
                    }
                });
            }
            worst.unwrap_or(child_static)
        };
        best = Some(match best {
            None => child_value,
            Some(b) => {
                if b.ranks_below(child_value) {
                    child_value
                } else {
                    b
                }
            }
        });
    }
    assert_eq!(root.score, best.unwrap());
}
