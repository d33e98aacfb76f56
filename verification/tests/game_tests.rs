use stack_minimax::game::{Board, Color, GameMove, GameState, Stack, BOARD_DIM, NUM_SIZES};
use stack_minimax::score::Score;

fn place(size: usize, r: usize, c: usize) -> GameMove {
    GameMove::Place { size, dest: (r, c) }
}

#[test]
fn other_swaps_players() {
    assert_eq!(Color::White.other(), Color::Black);
    assert_eq!(Color::Black.other(), Color::White);
}

#[test]
fn empty_stack_has_top_zero() {
    let s = Stack::empty();
    assert_eq!(s.top(), 0);
    assert_eq!(s.top_color(), Color::Empty);
}

#[test]
fn top_is_one_past_highest_piece() {
    let mut s = Stack::empty();
    s.pieces[1] = Color::White;
    assert_eq!(s.top(), 2);
    assert_eq!(s.top_color(), Color::White);
    s.pieces[3] = Color::Black;
    assert_eq!(s.top(), NUM_SIZES);
    assert_eq!(s.top_color(), Color::Black);
    s.pieces[0] = Color::White;
    assert_eq!(s.top(), NUM_SIZES);
    assert_eq!(s.top_color(), Color::Black);
}

#[test]
fn new_game_has_full_reserves_and_empty_board() {
    let g = GameState::new();
    assert_eq!(g.turn, Color::White);
    for i in 0..NUM_SIZES {
        assert_eq!(g.white_pieces[i], 3);
        assert_eq!(g.black_pieces[i], 3);
    }
    for r in 0..BOARD_DIM {
        for c in 0..BOARD_DIM {
            assert_eq!(g.board.at(r, c).top(), 0);
        }
    }
}

#[test]
fn apply_place_sets_slot_flips_turn_and_consumes_a_piece() {
    let mut g = GameState::new();
    g.apply_move(place(2, 1, 3));
    assert_eq!(g.turn, Color::Black);
    assert_eq!(g.board.at(1, 3).pieces[2], Color::White);
    assert_eq!(g.board.at(1, 3).top(), 3);
    assert_eq!(g.board.at(1, 3).top_color(), Color::White);
    // The placed piece came out of white's reserve of its size; nothing
    // else moved.
    assert_eq!(g.white_pieces, [3, 3, 2, 3]);
    assert_eq!(g.black_pieces, [3, 3, 3, 3]);
}

#[test]
fn apply_move_keeps_piece_color_and_clears_source() {
    let mut g = GameState::new();
    g.apply_move(place(1, 0, 0)); // white piece of size 1 at (0,0)
    g.apply_move(place(0, 2, 2)); // black piece of size 0 at (2,2)
    // White relocates black's top piece from (2,2) onto (3,3).
    let white_before = g.white_pieces;
    let black_before = g.black_pieces;
    g.apply_move(GameMove::Move { source: (2, 2), dest: (3, 3) });
    assert_eq!(g.turn, Color::Black);
    assert_eq!(g.board.at(2, 2).top(), 0);
    assert_eq!(g.board.at(3, 3).pieces[0], Color::Black);
    assert_eq!(g.board.at(3, 3).top_color(), Color::Black);
    // A relocation consumes nothing from either reserve.
    assert_eq!(g.white_pieces, white_before);
    assert_eq!(g.black_pieces, black_before);
}

#[test]
fn placed_pieces_and_reserves_account_for_the_allotment() {
    let mut g = GameState::new();
    g.apply_move(place(0, 0, 0));
    g.apply_move(place(0, 1, 1));
    g.apply_move(place(1, 0, 0));
    g.apply_move(place(2, 3, 3));
    // For each player and size: pieces on the board + reserve = 3.
    for size in 0..NUM_SIZES {
        let mut white_placed = 0;
        let mut black_placed = 0;
        for r in 0..BOARD_DIM {
            for c in 0..BOARD_DIM {
                match g.board.at(r, c).pieces[size] {
                    Color::White => white_placed += 1,
                    Color::Black => black_placed += 1,
                    Color::Empty => {}
                }
            }
        }
        assert_eq!(white_placed + g.white_pieces[size], 3);
        assert_eq!(black_placed + g.black_pieces[size], 3);
    }
    assert_eq!(g.white_pieces, [2, 2, 3, 3]);
    assert_eq!(g.black_pieces, [2, 3, 2, 3]);
}

#[test]
fn a_size_runs_out_after_three_placements() {
    let mut g = GameState::new();
    // White places its three size-0 pieces; black places elsewhere.
    g.apply_move(place(0, 0, 0));
    g.apply_move(place(0, 3, 0));
    g.apply_move(place(0, 0, 1));
    g.apply_move(place(0, 3, 1));
    g.apply_move(place(0, 0, 2));
    g.apply_move(place(0, 3, 2));
    assert_eq!(g.white_pieces[0], 0);
    assert_eq!(g.turn, Color::White);
    // White holds no size-0 piece any more: no generated move places one.
    for (m, _) in &g.branch() {
        if let GameMove::Place { size, .. } = m {
            assert_ne!(*size, 0);
        }
    }
}

#[test]
fn generator_on_empty_board_yields_all_places() {
    let g = GameState::new();
    let children = g.branch();
    // 16 cells, 4 sizes each in reserve, no taller stack to move from.
    assert_eq!(children.len(), 64);
    for (m, child) in &children {
        match m {
            GameMove::Place { size, dest } => {
                assert!(*size < NUM_SIZES);
                assert!(dest.0 < BOARD_DIM && dest.1 < BOARD_DIM);
                assert_eq!(child.board.at(dest.0, dest.1).pieces[*size], Color::White);
                assert_eq!(child.turn, Color::Black);
                // The child position shows the placed piece taken out of
                // white's reserve.
                assert_eq!(child.white_pieces[*size], 2);
                assert_eq!(child.black_pieces, [3, 3, 3, 3]);
            }
            GameMove::Move { .. } => panic!("no relocation is legal on an empty board"),
        }
    }
}

#[test]
fn generator_with_single_stack_counts_moves_and_sources() {
    let mut g = GameState::new();
    g.apply_move(place(0, 0, 0)); // white smallest piece at (0,0); black to move
    let children = g.branch();
    // Places: 3 larger sizes onto (0,0), 4 sizes onto the 15 empty cells.
    // Moves: the single stack can move onto each of the 15 empty cells.
    assert_eq!(children.len(), 3 + 15 * 4 + 15);
    for (m, _) in &children {
        if let GameMove::Move { source, .. } = m {
            assert_eq!(*source, (0, 0));
        }
    }
}

#[test]
fn generated_children_replay_through_apply_move() {
    let mut g = GameState::new();
    g.apply_move(place(0, 1, 1));
    g.apply_move(place(2, 3, 0));
    let children = g.branch();
    assert!(!children.is_empty());
    for (m, child) in &children {
        let mut replay = g;
        replay.apply_move(*m);
        assert_eq!(replay, *child);
    }
}

#[test]
fn generator_order_is_deterministic() {
    let g = GameState::new();
    let a = g.branch();
    let b = g.branch();
    assert_eq!(a.len(), b.len());
    for i in 0..a.len() {
        assert_eq!(a[i].0, b[i].0);
        assert_eq!(a[i].1, b[i].1);
    }
    // Row-major destinations, ascending size first.
    assert_eq!(a[0].0, place(0, 0, 0));
    assert_eq!(a[1].0, place(1, 0, 0));
    assert_eq!(a[4].0, place(0, 0, 1));
}

fn board_with_tops(tops: &[(usize, usize, Color)]) -> Board {
    let mut b = Board::empty();
    for &(r, c, color) in tops {
        b.cells[r * BOARD_DIM + c].pieces[0] = color;
    }
    b
}

#[test]
fn evaluator_detects_row_column_and_diagonal_wins() {
    let mut g = GameState::new();
    // Full white top row 2; black to move, so white just moved.
    g.board = board_with_tops(&[
        (2, 0, Color::White),
        (2, 1, Color::White),
        (2, 2, Color::White),
        (2, 3, Color::White),
        (0, 0, Color::Black),
    ]);
    g.turn = Color::Black;
    assert_eq!(g.raw_score(), Score::WhiteFavored);

    // Full black column 1; white to move, so black just moved.
    g.board = board_with_tops(&[
        (0, 1, Color::Black),
        (1, 1, Color::Black),
        (2, 1, Color::Black),
        (3, 1, Color::Black),
        (3, 3, Color::White),
    ]);
    g.turn = Color::White;
    assert_eq!(g.raw_score(), Score::BlackFavored);

    // Full white main diagonal.
    g.board = board_with_tops(&[
        (0, 0, Color::White),
        (1, 1, Color::White),
        (2, 2, Color::White),
        (3, 3, Color::White),
    ]);
    g.turn = Color::Black;
    assert_eq!(g.raw_score(), Score::WhiteFavored);

    // Full black anti-diagonal.
    g.board = board_with_tops(&[
        (0, 3, Color::Black),
        (1, 2, Color::Black),
        (2, 1, Color::Black),
        (3, 0, Color::Black),
    ]);
    g.turn = Color::White;
    assert_eq!(g.raw_score(), Score::BlackFavored);
}

#[test]
fn evaluator_checks_only_the_side_that_just_moved() {
    let mut g = GameState::new();
    // Full white row, but white is still to move: the line is not checked
    // for white, so the score stays heuristic.
    g.board = board_with_tops(&[
        (1, 0, Color::White),
        (1, 1, Color::White),
        (1, 2, Color::White),
        (1, 3, Color::White),
    ]);
    g.turn = Color::White;
    // (1,1) and (1,2) sit on no diagonal in row 1? (1,1) is on the main
    // diagonal and (1,2) on the anti-diagonal: 3 + 3 + 2 + 2.
    assert_eq!(g.raw_score(), Score::Balanced(10));
}

#[test]
fn heuristic_weights_diagonals_higher() {
    let mut g = GameState::new();
    // White on (0,0): main diagonal, +3. Black on (0,1): plain cell, -2.
    g.board = board_with_tops(&[(0, 0, Color::White), (0, 1, Color::Black)]);
    g.turn = Color::White;
    assert_eq!(g.raw_score(), Score::Balanced(1));
    g.turn = Color::Black;
    assert_eq!(g.raw_score(), Score::Balanced(1));
    // Anti-diagonal cell also counts 3.
    g.board = board_with_tops(&[(0, 3, Color::Black)]);
    assert_eq!(g.raw_score(), Score::Balanced(-3));
    // An empty board scores even.
    g.board = Board::empty();
    assert_eq!(g.raw_score(), Score::Balanced(0));
}

#[test]
fn score_order_is_total_with_wins_at_the_extremes() {
    let scores = [
        Score::BlackFavored,
        Score::Balanced(i32::MIN),
        Score::Balanced(-7),
        Score::Balanced(0),
        Score::Balanced(42),
        Score::Balanced(i32::MAX),
        Score::WhiteFavored,
    ];
    for i in 0..scores.len() {
        for j in 0..scores.len() {
            let a = scores[i];
            let b = scores[j];
            assert!(a.partial_cmp(&b).is_some());
            let lt = a < b;
            let eq = a == b;
            let gt = a > b;
            assert_eq!(i < j, lt);
            assert_eq!(i == j, eq);
            assert_eq!(i > j, gt);
            assert_eq!(1, lt as u32 + eq as u32 + gt as u32);
        }
    }
    // A win marker never compares equal to any heuristic score.
    assert_ne!(Score::WhiteFavored, Score::Balanced(i32::MAX));
    assert_ne!(Score::BlackFavored, Score::Balanced(i32::MIN));
}

#[test]
fn for_color_picks_the_matching_marker() {
    assert_eq!(Score::for_color(Color::White), Score::WhiteFavored);
    assert_eq!(Score::for_color(Color::Black), Score::BlackFavored);
}
