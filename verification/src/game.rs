//! The position model: colors, per-cell stacks, the board, whole positions,
//! and the two kinds of move together with their legality and their effect.

use vstd::prelude::*;

verus! {

/// Number of distinct piece sizes; a stack has one slot per size.
pub const NUM_SIZES: usize = 4;

/// How many pieces of each size a player starts with.
pub const NUM_EACH_SIZE: i32 = 3;

/// The board is BOARD_DIM x BOARD_DIM cells.
pub const BOARD_DIM: usize = 4;

/// Total number of cells on the board.
pub const BOARD_CELLS: usize = BOARD_DIM * BOARD_DIM;

/// The contents of one stack slot: no piece, or a piece of one of the two
/// players' colors.
#[derive(Clone, Copy, PartialEq, Eq, Structural, Debug)]
pub enum Color {
    Empty,
    White,
    Black,
}

/// The opposite player's color. Total: `Empty` is mapped to `White`, though
/// callers are expected to pass only player colors.
pub open spec fn spec_other(c: Color) -> Color {
    if c is White {
        Color::Black
    } else {
        Color::White
    }
}

impl Color {
    /// The opposite player's color.
    pub fn other(self) -> (r: Color)
        ensures
            r == spec_other(self),
    {
        if self == Color::White {
            Color::Black
        } else {
            Color::White
        }
    }
}

/// One cell's stack. Slot `i` holds the color of the piece of size `i`
/// present in this stack, or `Empty` if no piece of that size is here.
#[derive(Clone, Copy, PartialEq, Eq, Debug)]
pub struct Stack {
    pub pieces: [Color; NUM_SIZES],
}

/// One past the highest occupied slot among the sizes below `n`,
/// or 0 if all of them are empty.
pub open spec fn spec_top_below(s: Seq<Color>, n: int) -> int
    decreases n,
{
    if n <= 0 {
        0
    } else if s[n - 1] != Color::Empty {
        n
    } else {
        spec_top_below(s, n - 1)
    }
}

/// One past the highest occupied slot of the stack: the smallest size that
/// a newly placed piece must have. `NUM_SIZES` means the stack is full.
pub open spec fn spec_top(st: Stack) -> int {
    spec_top_below(st.pieces@, NUM_SIZES as int)
}

/// The color of the highest occupied slot, or `Empty` for an empty stack:
/// the piece visible from above.
pub open spec fn spec_top_color(st: Stack) -> Color {
    if spec_top(st) == 0 {
        Color::Empty
    } else {
        st.pieces@[spec_top(st) - 1]
    }
}

/// `spec_top_below` is between 0 and `n`, every slot at or above it (below
/// `n`) is empty, and the slot just below it (if any) is occupied.
pub proof fn lemma_top_below_bounds(s: Seq<Color>, n: int)
    requires
        0 <= n <= s.len(),
    ensures
        0 <= spec_top_below(s, n) <= n,
        forall|i: int| spec_top_below(s, n) <= i < n ==> s[i] == Color::Empty,
        spec_top_below(s, n) > 0 ==> s[spec_top_below(s, n) - 1] != Color::Empty,
    decreases n,
{
    if n > 0 && s[n - 1] == Color::Empty {
        lemma_top_below_bounds(s, n - 1);
    }
}

/// The top of a stack lies between 0 and `NUM_SIZES`; the slots at or above
/// it are empty and the slot just below it, if any, is occupied.
pub proof fn lemma_top_bounds(st: Stack)
    ensures
        0 <= spec_top(st) <= NUM_SIZES as int,
        forall|i: int| spec_top(st) <= i < NUM_SIZES as int ==> st.pieces@[i] == Color::Empty,
        spec_top(st) > 0 ==> st.pieces@[spec_top(st) - 1] != Color::Empty,
{
    lemma_top_below_bounds(st.pieces@, NUM_SIZES as int);
}

impl Stack {
    /// A stack with no pieces at all.
    pub fn empty() -> (r: Stack)
        ensures
            forall|i: int| 0 <= i < NUM_SIZES as int ==> r.pieces@[i] == Color::Empty,
            spec_top(r) == 0,
    {
        let r = Stack { pieces: [Color::Empty; NUM_SIZES] };
        proof {
            lemma_top_bounds(r);
            if spec_top(r) > 0 {
                assert(r.pieces@[spec_top(r) - 1] == Color::Empty);
            }
        }
        r
    }

    /// One past the highest occupied slot: the next slot a placed piece
    /// would use. Equal to `NUM_SIZES` when the stack is full.
    pub fn top(&self) -> (r: usize)
        ensures
            r as int == spec_top(*self),
    {
        let mut i: usize = NUM_SIZES;
        while i > 0
            invariant
                0 <= i <= NUM_SIZES,
                spec_top(*self) == spec_top_below(self.pieces@, i as int),
            decreases i,
        {
            if self.pieces[i - 1] != Color::Empty {
                return i;
            }
            i = i - 1;
        }
        0
    }

    /// The color of the visible (highest) piece, or `Empty` for an empty
    /// stack.
    pub fn top_color(&self) -> (r: Color)
        ensures
            r == spec_top_color(*self),
    {
        let t = self.top();
        proof {
            lemma_top_bounds(*self);
        }
        if t == 0 {
            Color::Empty
        } else {
            self.pieces[t - 1]
        }
    }
}

impl Default for Stack {
    /// The empty stack.
    fn default() -> (r: Stack)
        ensures
            spec_top(r) == 0,
    {
        Stack::empty()
    }
}

/// The playing surface: a row-major grid of stacks, addressed by
/// `(row, col)` with both coordinates below `BOARD_DIM`.
#[derive(Clone, Copy, PartialEq, Eq, Debug)]
pub struct Board {
    pub cells: [Stack; BOARD_CELLS],
}

/// The stack at `(r, c)` of the board.
pub open spec fn spec_at(b: Board, r: int, c: int) -> Stack {
    b.cells@[r * BOARD_DIM as int + c]
}

impl Board {
    /// A board of empty stacks.
    pub fn empty() -> (r: Board)
        ensures
            forall|rr: int, cc: int|
                0 <= rr < BOARD_DIM as int && 0 <= cc < BOARD_DIM as int ==> spec_top(
                    #[trigger] spec_at(r, rr, cc),
                ) == 0,
    {
        let b = Board { cells: [Stack::empty(); BOARD_CELLS] };
        proof {
            assert forall|rr: int, cc: int|
                0 <= rr < BOARD_DIM as int && 0 <= cc < BOARD_DIM as int implies spec_top(
                #[trigger] spec_at(b, rr, cc),
            ) == 0 by {
                assert(0 <= rr * BOARD_DIM as int + cc < BOARD_CELLS as int);
            }
        }
        b
    }

    /// Read the stack at `(r, c)`.
    pub fn at(&self, r: usize, c: usize) -> (s: Stack)
        requires
            r < BOARD_DIM,
            c < BOARD_DIM,
        ensures
            s == spec_at(*self, r as int, c as int),
    {
        self.cells[r * BOARD_DIM + c]
    }

    /// Replace the stack at `(r, c)`.
    pub fn set_at(&mut self, r: usize, c: usize, st: Stack)
        requires
            r < BOARD_DIM,
            c < BOARD_DIM,
        ensures
            final(self).cells@ == old(self).cells@.update(
                r as int * BOARD_DIM as int + c as int,
                st,
            ),
    {
        self.cells[r * BOARD_DIM + c] = st;
    }
}

/// One move: either introduce a reserved piece of the given size at `dest`,
/// or relocate the top piece of `source` onto `dest`. A move is a plain
/// value; it is meaningful only together with the position it was generated
/// from.
#[derive(Clone, Copy, PartialEq, Eq, Debug)]
pub enum GameMove {
    Place { size: usize, dest: (usize, usize) },
    Move { source: (usize, usize), dest: (usize, usize) },
}

/// One immutable snapshot of the game: each player's remaining pieces per
/// size, the board, and whose turn it is.
#[derive(Clone, Copy, PartialEq, Eq, Debug)]
pub struct GameState {
    pub white_pieces: [i32; NUM_SIZES],
    pub black_pieces: [i32; NUM_SIZES],
    pub board: Board,
    pub turn: Color,
}

/// The reserve of the player of the given color (`Empty` falls to black,
/// mirroring how the executable code branches on `turn == White`).
pub open spec fn spec_reserve(g: GameState, c: Color) -> Seq<i32> {
    if c is White {
        g.white_pieces@
    } else {
        g.black_pieces@
    }
}

/// A `Place` of `size` at `(r, c)` is legal for the side to move: the
/// coordinates and the size are in range, the mover still holds a piece of
/// that size, and the size is at least the destination's top (so the new
/// piece is the new visible top).
pub open spec fn is_place_legal(g: GameState, size: int, r: int, c: int) -> bool {
    &&& 0 <= size < NUM_SIZES as int
    &&& 0 <= r < BOARD_DIM as int
    &&& 0 <= c < BOARD_DIM as int
    &&& spec_reserve(g, g.turn)[size] > 0
    &&& size >= spec_top(spec_at(g.board, r, c))
}

/// A `Move` from `(sr, sc)` to `(dr, dc)` is legal: both cells are in
/// range and distinct, and the source stack is strictly taller than the
/// destination (the relocated piece keeps its size slot, so it must clear
/// the destination's top).
pub open spec fn is_move_legal(g: GameState, sr: int, sc: int, dr: int, dc: int) -> bool {
    &&& 0 <= sr < BOARD_DIM as int
    &&& 0 <= sc < BOARD_DIM as int
    &&& 0 <= dr < BOARD_DIM as int
    &&& 0 <= dc < BOARD_DIM as int
    &&& !(sr == dr && sc == dc)
    &&& spec_top(spec_at(g.board, sr, sc)) > spec_top(spec_at(g.board, dr, dc))
}

/// Legality of a move against a position, for the side to move.
pub open spec fn is_legal(g: GameState, m: GameMove) -> bool {
    match m {
        GameMove::Place { size, dest } => is_place_legal(
            g,
            size as int,
            dest.0 as int,
            dest.1 as int,
        ),
        GameMove::Move { source, dest } => is_move_legal(
            g,
            source.0 as int,
            source.1 as int,
            dest.0 as int,
            dest.1 as int,
        ),
    }
}

/// The board after placing a piece of the mover's color at slot `size` of
/// cell `(r, c)`.
pub open spec fn spec_place_board(g: GameState, size: int, r: int, c: int) -> Board {
    let st = spec_at(g.board, r, c);
    let st2 = Stack { pieces: vstd::array::spec_array_update(st.pieces, size, g.turn) };
    Board {
        cells: vstd::array::spec_array_update(g.board.cells, r * BOARD_DIM as int + c, st2),
    }
}

/// The board after relocating the top piece of `(sr, sc)` onto `(dr, dc)`:
/// the piece keeps its size slot and its color, and the source slot is
/// cleared.
pub open spec fn spec_move_board(g: GameState, sr: int, sc: int, dr: int, dc: int) -> Board {
    let src = spec_at(g.board, sr, sc);
    let dst = spec_at(g.board, dr, dc);
    let slot = spec_top(src) - 1;
    let piece = src.pieces@[slot];
    let dst2 = Stack { pieces: vstd::array::spec_array_update(dst.pieces, slot, piece) };
    let src2 = Stack { pieces: vstd::array::spec_array_update(src.pieces, slot, Color::Empty) };
    let cells1 = vstd::array::spec_array_update(
        g.board.cells,
        dr * BOARD_DIM as int + dc,
        dst2,
    );
    Board { cells: vstd::array::spec_array_update(cells1, sr * BOARD_DIM as int + sc, src2) }
}

/// The given reserve with one piece of the given size taken out.
pub open spec fn spec_take_piece(reserve: [i32; NUM_SIZES], size: int) -> [i32; NUM_SIZES] {
    vstd::array::spec_array_update(reserve, size, (reserve@[size] - 1) as i32)
}

/// The position reached by applying a legal move: the board changes as the
/// move says, a `Place` consumes one piece of its size from the mover's
/// reserve (a `Move` consumes nothing), and the turn flips.
pub open spec fn apply_spec(g: GameState, m: GameMove) -> GameState {
    match m {
        GameMove::Place { size, dest } => GameState {
            white_pieces: if g.turn is White {
                spec_take_piece(g.white_pieces, size as int)
            } else {
                g.white_pieces
            },
            black_pieces: if g.turn is White {
                g.black_pieces
            } else {
                spec_take_piece(g.black_pieces, size as int)
            },
            board: spec_place_board(g, size as int, dest.0 as int, dest.1 as int),
            turn: spec_other(g.turn),
        },
        GameMove::Move { source, dest } => GameState {
            white_pieces: g.white_pieces,
            black_pieces: g.black_pieces,
            board: spec_move_board(
                g,
                source.0 as int,
                source.1 as int,
                dest.0 as int,
                dest.1 as int,
            ),
            turn: spec_other(g.turn),
        },
    }
}

/// Number of pieces of `color` occupying slot `size` among the first `n`
/// cells of the board.
pub open spec fn spec_placed_below(b: Board, color: Color, size: int, n: int) -> int
    decreases n,
{
    if n <= 0 {
        0
    } else {
        spec_placed_below(b, color, size, n - 1) + if b.cells@[n - 1].pieces@[size] == color {
            1int
        } else {
            0int
        }
    }
}

/// Number of pieces of `color` of size `size` placed anywhere on the board.
pub open spec fn spec_placed(b: Board, color: Color, size: int) -> int {
    spec_placed_below(b, color, size, BOARD_CELLS as int)
}

/// The position invariant: the turn belongs to a player, and for each
/// player and each size, the pieces placed on the board plus the remaining
/// reserve account for exactly the starting allotment, with the reserve
/// never negative.
pub open spec fn reserves_invariant(g: GameState) -> bool {
    &&& g.turn != Color::Empty
    &&& (forall|size: int|
        0 <= size < NUM_SIZES as int ==> {
            &&& g.white_pieces@[size] >= 0
            &&& g.black_pieces@[size] >= 0
            &&& spec_placed(g.board, Color::White, size) + g.white_pieces@[size]
                == NUM_EACH_SIZE as int
            &&& spec_placed(g.board, Color::Black, size) + g.black_pieces@[size]
                == NUM_EACH_SIZE as int
        })
}

/// Replacing the cell at index `k` shifts the placed count by the change
/// of that one cell's indicator, and only when `k` lies below `n`.
proof fn lemma_placed_update(b: Board, k: int, st: Stack, color: Color, size: int, n: int)
    requires
        0 <= k < BOARD_CELLS as int,
        0 <= n <= BOARD_CELLS as int,
    ensures
        spec_placed_below(Board { cells: vstd::array::spec_array_update(b.cells, k, st) },
            color, size, n) == spec_placed_below(b, color, size, n) + if k < n {
            (if st.pieces@[size] == color {
                1int
            } else {
                0int
            }) - (if b.cells@[k].pieces@[size] == color {
                1int
            } else {
                0int
            })
        } else {
            0int
        },
    decreases n,
{
    if n > 0 {
        lemma_placed_update(b, k, st, color, size, n - 1);
    }
}

/// A board whose stacks all leave slot `size` empty has no placed piece of
/// any player's color at that size.
proof fn lemma_placed_all_empty(b: Board, color: Color, size: int, n: int)
    requires
        color != Color::Empty,
        0 <= n <= BOARD_CELLS as int,
        forall|idx: int|
            0 <= idx < BOARD_CELLS as int ==> (#[trigger] b.cells@[idx]).pieces@[size]
                == Color::Empty,
    ensures
        spec_placed_below(b, color, size, n) == 0,
    decreases n,
{
    if n > 0 {
        lemma_placed_all_empty(b, color, size, n - 1);
    }
}

/// A placed-piece count lies between zero and the number of cells counted.
proof fn lemma_placed_bounds(b: Board, color: Color, size: int, n: int)
    requires
        0 <= n <= BOARD_CELLS as int,
    ensures
        0 <= spec_placed_below(b, color, size, n) <= n,
    decreases n,
{
    if n > 0 {
        lemma_placed_bounds(b, color, size, n - 1);
    }
}

/// Law: under the position invariant each reserve entry stays within the
/// starting allotment.
pub proof fn lemma_invariant_bounds_reserves(g: GameState)
    requires
        reserves_invariant(g),
    ensures
        forall|size: int|
            0 <= size < NUM_SIZES as int ==> 0 <= #[trigger] g.white_pieces@[size]
                <= NUM_EACH_SIZE && 0 <= g.black_pieces@[size] <= NUM_EACH_SIZE,
{
    assert forall|size: int| 0 <= size < NUM_SIZES as int implies 0 <= #[trigger] g
        .white_pieces@[size] <= NUM_EACH_SIZE && 0 <= g.black_pieces@[size]
        <= NUM_EACH_SIZE by {
        lemma_placed_bounds(g.board, Color::White, size, BOARD_CELLS as int);
        lemma_placed_bounds(g.board, Color::Black, size, BOARD_CELLS as int);
    }
}

/// Law: applying a legal move preserves the position invariant. A `Place`
/// moves one piece of its size from the mover's reserve onto the board; a
/// `Move` only relocates a piece that is already placed.
pub proof fn lemma_apply_preserves_invariant(g: GameState, m: GameMove)
    requires
        reserves_invariant(g),
        is_legal(g, m),
    ensures
        reserves_invariant(apply_spec(g, m)),
{
    let g2 = apply_spec(g, m);
    match m {
        GameMove::Place { size, dest } => {
            let (r, c) = (dest.0 as int, dest.1 as int);
            let k = r * BOARD_DIM as int + c;
            let st = spec_at(g.board, r, c);
            let st2 = Stack {
                pieces: vstd::array::spec_array_update(st.pieces, size as int, g.turn),
            };
            lemma_top_bounds(st);
            assert(st.pieces@[size as int] == Color::Empty);
            assert forall|s: int| 0 <= s < NUM_SIZES as int implies {
                &&& g2.white_pieces@[s] >= 0
                &&& g2.black_pieces@[s] >= 0
                &&& spec_placed(g2.board, Color::White, s) + g2.white_pieces@[s]
                    == NUM_EACH_SIZE as int
                &&& spec_placed(g2.board, Color::Black, s) + g2.black_pieces@[s]
                    == NUM_EACH_SIZE as int
            } by {
                lemma_placed_update(g.board, k, st2, Color::White, s, BOARD_CELLS as int);
                lemma_placed_update(g.board, k, st2, Color::Black, s, BOARD_CELLS as int);
            }
        },
        GameMove::Move { source, dest } => {
            let (sr, sc) = (source.0 as int, source.1 as int);
            let (dr, dc) = (dest.0 as int, dest.1 as int);
            let sk = sr * BOARD_DIM as int + sc;
            let dk = dr * BOARD_DIM as int + dc;
            let src = spec_at(g.board, sr, sc);
            let dst = spec_at(g.board, dr, dc);
            let slot = spec_top(src) - 1;
            let piece = src.pieces@[slot];
            let dst2 = Stack { pieces: vstd::array::spec_array_update(dst.pieces, slot, piece) };
            let src2 = Stack {
                pieces: vstd::array::spec_array_update(src.pieces, slot, Color::Empty),
            };
            let b1 = Board { cells: vstd::array::spec_array_update(g.board.cells, dk, dst2) };
            lemma_top_bounds(src);
            lemma_top_bounds(dst);
            assert(dst.pieces@[slot] == Color::Empty);
            assert(sk != dk);
            assert forall|s: int| 0 <= s < NUM_SIZES as int implies {
                &&& g2.white_pieces@[s] >= 0
                &&& g2.black_pieces@[s] >= 0
                &&& spec_placed(g2.board, Color::White, s) + g2.white_pieces@[s]
                    == NUM_EACH_SIZE as int
                &&& spec_placed(g2.board, Color::Black, s) + g2.black_pieces@[s]
                    == NUM_EACH_SIZE as int
            } by {
                lemma_placed_update(g.board, dk, dst2, Color::White, s, BOARD_CELLS as int);
                lemma_placed_update(g.board, dk, dst2, Color::Black, s, BOARD_CELLS as int);
                lemma_placed_update(b1, sk, src2, Color::White, s, BOARD_CELLS as int);
                lemma_placed_update(b1, sk, src2, Color::Black, s, BOARD_CELLS as int);
                assert(b1.cells@[sk] == src);
            }
        },
    }
}

impl GameState {
    /// The starting position: every reserve full, every stack empty, white
    /// to move. It satisfies the position invariant, which every legal move
    /// then preserves.
    pub fn new() -> (r: GameState)
        ensures
            forall|i: int| 0 <= i < NUM_SIZES as int ==> r.white_pieces@[i] == NUM_EACH_SIZE,
            forall|i: int| 0 <= i < NUM_SIZES as int ==> r.black_pieces@[i] == NUM_EACH_SIZE,
            forall|rr: int, cc: int|
                0 <= rr < BOARD_DIM as int && 0 <= cc < BOARD_DIM as int ==> spec_top(
                    #[trigger] spec_at(r.board, rr, cc),
                ) == 0,
            r.turn == Color::White,
            reserves_invariant(r),
    {
        let r = GameState {
            white_pieces: [NUM_EACH_SIZE; NUM_SIZES],
            black_pieces: [NUM_EACH_SIZE; NUM_SIZES],
            board: Board::empty(),
            turn: Color::White,
        };
        proof {
            assert forall|size: int| 0 <= size < NUM_SIZES as int implies spec_placed(
                r.board,
                Color::White,
                size,
            ) == 0 && spec_placed(r.board, Color::Black, size) == 0 by {
                assert forall|idx: int| 0 <= idx < BOARD_CELLS as int implies (#[trigger] r
                    .board
                    .cells@[idx]).pieces@[size] == Color::Empty by {
                    let rr = idx / BOARD_DIM as int;
                    let cc = idx % BOARD_DIM as int;
                    assert(spec_at(r.board, rr, cc) == r.board.cells@[idx]);
                    lemma_top_bounds(r.board.cells@[idx]);
                }
                lemma_placed_all_empty(r.board, Color::White, size, BOARD_CELLS as int);
                lemma_placed_all_empty(r.board, Color::Black, size, BOARD_CELLS as int);
            }
        }
        r
    }

    /// Hand the move to the other player.
    pub fn next_turn(&mut self)
        ensures
            *final(self) == (GameState { turn: spec_other(old(self).turn), ..*old(self) }),
    {
        self.turn = self.turn.other();
    }

    /// Apply a legal move in place: change the board as the move says, take
    /// a placed piece out of the mover's reserve, and flip the turn. This is
    /// the one mutating entry point, meant for a driver replaying a chosen
    /// move; the search itself copies positions.
    pub fn apply_move(&mut self, game_move: GameMove)
        requires
            is_legal(*old(self), game_move),
        ensures
            *final(self) == apply_spec(*old(self), game_move),
    {
        match game_move {
            GameMove::Move { source: (source_row, source_col), dest: (dest_row, dest_col) } => {
                let src = self.board.at(source_row, source_col);
                let dst = self.board.at(dest_row, dest_col);
                proof {
                    lemma_top_bounds(src);
                    lemma_top_bounds(dst);
                }
                let slot = src.top() - 1;
                let piece = src.pieces[slot];
                let mut dst2 = dst;
                dst2.pieces[slot] = piece;
                let mut src2 = src;
                src2.pieces[slot] = Color::Empty;
                self.board.set_at(dest_row, dest_col, dst2);
                self.board.set_at(source_row, source_col, src2);
                proof {
                    let target = spec_move_board(
                        *old(self),
                        source_row as int,
                        source_col as int,
                        dest_row as int,
                        dest_col as int,
                    );
                    assert(dst2.pieces =~= spec_at(
                        target,
                        dest_row as int,
                        dest_col as int,
                    ).pieces);
                    assert(src2.pieces =~= spec_at(
                        target,
                        source_row as int,
                        source_col as int,
                    ).pieces);
                    assert(self.board.cells =~= target.cells);
                }
            },
            GameMove::Place { size, dest: (dest_row, dest_col) } => {
                let dst = self.board.at(dest_row, dest_col);
                let mut dst2 = dst;
                dst2.pieces[size] = self.turn;
                self.board.set_at(dest_row, dest_col, dst2);
                if self.turn == Color::White {
                    let held = self.white_pieces[size];
                    self.white_pieces[size] = held - 1;
                    proof {
                        assert(self.white_pieces =~= spec_take_piece(
                            old(self).white_pieces,
                            size as int,
                        ));
                    }
                } else {
                    let held = self.black_pieces[size];
                    self.black_pieces[size] = held - 1;
                    proof {
                        assert(self.black_pieces =~= spec_take_piece(
                            old(self).black_pieces,
                            size as int,
                        ));
                    }
                }
                proof {
                    let target = spec_place_board(
                        *old(self),
                        size as int,
                        dest_row as int,
                        dest_col as int,
                    );
                    assert(dst2.pieces =~= spec_at(target, dest_row as int, dest_col as int).pieces);
                    assert(self.board.cells =~= target.cells);
                }
            },
        }
        self.next_turn();
    }
}

} // verus!
