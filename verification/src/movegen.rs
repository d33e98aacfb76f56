//! The move generator: every legal move of the side to move, each paired
//! with the position it leads to, in a fixed deterministic order.
//!
//! The order is captured by a numeric rank: destinations in row-major
//! order; at each destination first the `Place` moves by ascending size,
//! then the `Move` moves by row-major source. The generator's output is
//! pinned down completely: it contains exactly the legal moves, sorted
//! strictly by rank, each paired with its `apply_spec` result.

use vstd::prelude::*;

use crate::game::BOARD_DIM;
use crate::game::Color;
use crate::game::GameMove;
use crate::game::GameState;
use crate::game::NUM_SIZES;
use crate::game::is_legal;
use crate::game::is_move_legal;
use crate::game::is_place_legal;
use crate::game::apply_spec;
use crate::game::lemma_apply_preserves_invariant;
use crate::game::reserves_invariant;
use crate::game::spec_at;
use crate::game::spec_reserve;
use crate::game::spec_top;

verus! {

/// The position of a move in the generation order. Each destination cell
/// owns a band of 32 ranks: the first 16 for `Place` moves by size, the
/// last 16 for `Move` moves by row-major source cell.
pub open spec fn spec_rank(m: GameMove) -> int {
    match m {
        GameMove::Place { size, dest } => (dest.0 as int * BOARD_DIM as int + dest.1 as int) * 32
            + size as int,
        GameMove::Move { source, dest } => (dest.0 as int * BOARD_DIM as int + dest.1 as int) * 32
            + 16 + source.0 as int * BOARD_DIM as int + source.1 as int,
    }
}

/// `m` occurs among the moves of the pair sequence.
pub open spec fn contains_move(s: Seq<(GameMove, GameState)>, m: GameMove) -> bool {
    exists|i: int| 0 <= i < s.len() && s[i].0 == m
}

/// Every pair holds a legal move together with the exact position that
/// applying it to `g` produces.
pub open spec fn gen_sound(g: GameState, s: Seq<(GameMove, GameState)>) -> bool {
    forall|i: int|
        0 <= i < s.len() ==> is_legal(g, (#[trigger] s[i]).0) && s[i].1 == apply_spec(g, s[i].0)
}

/// The moves appear in strictly increasing rank order (so no move repeats).
pub open spec fn gen_sorted(s: Seq<(GameMove, GameState)>) -> bool {
    forall|i: int, j: int|
        0 <= i < j < s.len() ==> spec_rank((#[trigger] s[i]).0) < spec_rank((#[trigger] s[j]).0)
}

/// Every move in the sequence ranks below the bound.
pub open spec fn gen_below(s: Seq<(GameMove, GameState)>, b: int) -> bool {
    forall|i: int| 0 <= i < s.len() ==> spec_rank((#[trigger] s[i]).0) < b
}

/// Every legal move ranking below the bound already occurs.
pub open spec fn gen_complete_below(g: GameState, s: Seq<(GameMove, GameState)>, b: int) -> bool {
    forall|m: GameMove| #[trigger] is_legal(g, m) && spec_rank(m) < b ==> contains_move(s, m)
}

/// Every legal move occurs.
pub open spec fn gen_complete(g: GameState, s: Seq<(GameMove, GameState)>) -> bool {
    forall|m: GameMove| #[trigger] is_legal(g, m) ==> contains_move(s, m)
}

/// A legal move's rank stays within the 16 destination bands.
proof fn lemma_rank_range(g: GameState, m: GameMove)
    requires
        is_legal(g, m),
    ensures
        0 <= spec_rank(m) < 512,
{
}

/// The only legal move with a rank in the place band of destination
/// `(dr, dc)` at offset `size` is that exact `Place` move.
proof fn lemma_rank_place_unique(g: GameState, m: GameMove, dr: usize, dc: usize, size: usize)
    requires
        is_legal(g, m),
        dr < BOARD_DIM,
        dc < BOARD_DIM,
        size < NUM_SIZES,
        spec_rank(m) == (dr as int * BOARD_DIM as int + dc as int) * 32 + size as int,
    ensures
        m == (GameMove::Place { size, dest: (dr, dc) }),
{
}

/// No legal move ranks in the dead space between a destination's place
/// band (sizes run only to `NUM_SIZES`) and its move band.
proof fn lemma_rank_gap(g: GameState, m: GameMove, d: int)
    requires
        is_legal(g, m),
        0 <= d < 16,
    ensures
        !(d * 32 + NUM_SIZES as int <= spec_rank(m) < d * 32 + 16),
{
}

/// The only legal move with a rank in the move band of destination
/// `(dr, dc)` at source offset `(sr, sc)` is that exact `Move` move.
proof fn lemma_rank_move_unique(
    g: GameState,
    m: GameMove,
    dr: usize,
    dc: usize,
    sr: usize,
    sc: usize,
)
    requires
        is_legal(g, m),
        dr < BOARD_DIM,
        dc < BOARD_DIM,
        sr < BOARD_DIM,
        sc < BOARD_DIM,
        spec_rank(m) == (dr as int * BOARD_DIM as int + dc as int) * 32 + 16 + sr as int
            * BOARD_DIM as int + sc as int,
    ensures
        m == (GameMove::Move { source: (sr, sc), dest: (dr, dc) }),
{
}

/// Pushing a pair keeps every previously contained move contained, and the
/// pushed pair's move becomes contained.
proof fn lemma_contains_push(s: Seq<(GameMove, GameState)>, x: (GameMove, GameState), m: GameMove)
    requires
        contains_move(s, m),
    ensures
        contains_move(s.push(x), m),
        contains_move(s.push(x), x.0),
{
    let i = choose|i: int| 0 <= i < s.len() && s[i].0 == m;
    assert(s.push(x)[i].0 == m);
    assert(s.push(x)[s.len() as int].0 == x.0);
}

/// Whether some legal move of `g` has rank `r`.
pub open spec fn rank_occupied(g: GameState, r: int) -> bool {
    exists|m: GameMove| is_legal(g, m) && spec_rank(m) == r
}

/// How many ranks below `b` carry a legal move of `g`. Since ranks are
/// unique among legal moves, this counts the legal moves ranking below `b`.
pub open spec fn count_occupied(g: GameState, b: int) -> int
    decreases b,
{
    if b <= 0 {
        0
    } else {
        count_occupied(g, b - 1) + if rank_occupied(g, b - 1) {
            1int
        } else {
            0int
        }
    }
}

/// How many of the sizes below `k` the side to move still has in reserve.
pub open spec fn reserve_sizes(g: GameState, k: int) -> int
    decreases k,
{
    if k <= 0 {
        0
    } else {
        reserve_sizes(g, k - 1) + if spec_reserve(g, g.turn)[k - 1] > 0 {
            1int
        } else {
            0int
        }
    }
}

/// A sound, sorted sequence that is complete below `b` and whose ranks all
/// lie below `b` has exactly one pair per occupied rank below `b`.
proof fn lemma_len_counts(g: GameState, s: Seq<(GameMove, GameState)>, b: int)
    requires
        b >= 0,
        gen_sound(g, s),
        gen_sorted(s),
        gen_below(s, b),
        gen_complete_below(g, s, b),
    ensures
        s.len() == count_occupied(g, b),
    decreases b,
{
    if b == 0 {
        if s.len() > 0 {
            lemma_rank_range(g, s[0].0);
        }
    } else if s.len() > 0 && spec_rank(s[s.len() - 1].0) == b - 1 {
        let last = s[s.len() - 1];
        let s2 = s.drop_last();
        assert(rank_occupied(g, b - 1));
        assert forall|m: GameMove| #[trigger] is_legal(g, m) && spec_rank(m) < b - 1 implies
            contains_move(s2, m) by {
            let i = choose|i: int| 0 <= i < s.len() && s[i].0 == m;
            assert(i < s.len() - 1);
            assert(s2[i].0 == m);
        }
        lemma_len_counts(g, s2, b - 1);
    } else {
        if rank_occupied(g, b - 1) {
            let m = choose|m: GameMove| is_legal(g, m) && spec_rank(m) == b - 1;
            assert(contains_move(s, m));
            let i = choose|i: int| 0 <= i < s.len() && s[i].0 == m;
            assert(spec_rank(s[s.len() - 1].0) >= spec_rank(s[i].0));
            assert(false);
        }
        assert forall|i: int| 0 <= i < s.len() implies spec_rank((#[trigger] s[i]).0) < b - 1 by {
            assert(spec_rank(s[s.len() - 1].0) >= spec_rank(s[i].0));
        }
        lemma_len_counts(g, s, b - 1);
    }
}

/// On an empty board, the occupied ranks of one destination band are
/// exactly the sizes in reserve: walking the band adds one count per
/// reserved size and nothing else.
proof fn lemma_empty_band_counts(g: GameState, d: int, j: int)
    requires
        forall|r: int, c: int|
            0 <= r < BOARD_DIM as int && 0 <= c < BOARD_DIM as int ==> spec_top(
                #[trigger] spec_at(g.board, r, c),
            ) == 0,
        0 <= d < 16,
        0 <= j <= 32,
    ensures
        count_occupied(g, d * 32 + j) == count_occupied(g, d * 32) + reserve_sizes(
            g,
            if j < NUM_SIZES as int {
                j
            } else {
                NUM_SIZES as int
            },
        ),
    decreases j,
{
    if j > 0 {
        lemma_empty_band_counts(g, d, j - 1);
        let r = d * 32 + j - 1;
        let dr = d / 4;
        let dc = d % 4;
        if j - 1 < NUM_SIZES as int {
            let mp = GameMove::Place { size: (j - 1) as usize, dest: (dr as usize, dc as usize) };
            assert(spec_rank(mp) == r);
            if spec_reserve(g, g.turn)[j - 1] > 0 {
                assert(is_legal(g, mp));
                assert(rank_occupied(g, r));
            } else {
                if rank_occupied(g, r) {
                    let m = choose|m: GameMove| is_legal(g, m) && spec_rank(m) == r;
                    lemma_rank_place_unique(g, m, dr as usize, dc as usize, (j - 1) as usize);
                    assert(false);
                }
            }
        } else if j - 1 < 16 {
            if rank_occupied(g, r) {
                let m = choose|m: GameMove| is_legal(g, m) && spec_rank(m) == r;
                lemma_rank_gap(g, m, d);
                assert(false);
            }
        } else {
            if rank_occupied(g, r) {
                let m = choose|m: GameMove| is_legal(g, m) && spec_rank(m) == r;
                match m {
                    GameMove::Place { size, dest } => {
                        assert(size < NUM_SIZES);
                        assert(false);
                    },
                    GameMove::Move { source, dest } => {
                        assert(spec_top(spec_at(g.board, source.0 as int, source.1 as int)) == 0);
                        assert(false);
                    },
                }
            }
        }
    }
}

/// On an empty board, the occupied ranks below `d` full bands count `d`
/// times the sizes in reserve.
proof fn lemma_empty_bands_total(g: GameState, d: int)
    requires
        forall|r: int, c: int|
            0 <= r < BOARD_DIM as int && 0 <= c < BOARD_DIM as int ==> spec_top(
                #[trigger] spec_at(g.board, r, c),
            ) == 0,
        0 <= d <= 16,
    ensures
        count_occupied(g, d * 32) == d * reserve_sizes(g, NUM_SIZES as int),
    decreases d,
{
    let rs = reserve_sizes(g, NUM_SIZES as int);
    if d > 0 {
        lemma_empty_bands_total(g, d - 1);
        lemma_empty_band_counts(g, d - 1, 32);
        assert(count_occupied(g, (d - 1) * 32 + 32) == count_occupied(g, (d - 1) * 32) + rs);
        assert(d * rs == (d - 1) * rs + rs) by (nonlinear_arith);
        assert((d - 1) * 32 + 32 == d * 32) by (nonlinear_arith);
        assert(count_occupied(g, d * 32) == count_occupied(g, (d - 1) * 32 + 32));
    } else {
        assert(count_occupied(g, 0) == 0);
        assert(0 * rs == 0) by (nonlinear_arith);
    }
}

/// Law: on a board of empty stacks, the generator's output count is
/// exactly the number of cells times the number of distinct sizes the
/// mover still holds in reserve.
pub proof fn lemma_empty_board_child_count(g: GameState, s: Seq<(GameMove, GameState)>)
    requires
        forall|r: int, c: int|
            0 <= r < BOARD_DIM as int && 0 <= c < BOARD_DIM as int ==> spec_top(
                #[trigger] spec_at(g.board, r, c),
            ) == 0,
        gen_sound(g, s),
        gen_sorted(s),
        gen_complete(g, s),
    ensures
        s.len() == 16 * reserve_sizes(g, NUM_SIZES as int),
{
    assert forall|i: int| 0 <= i < s.len() implies spec_rank((#[trigger] s[i]).0) < 512 by {
        lemma_rank_range(g, s[i].0);
    }
    assert forall|m: GameMove| #[trigger] is_legal(g, m) && spec_rank(m) < 512 implies
        contains_move(s, m) by {
        assert(contains_move(s, m));
    }
    lemma_len_counts(g, s, 512);
    lemma_empty_bands_total(g, 16);
}

/// Two sound, sorted pair sequences whose elements rank at least `lo` and
/// that both contain every legal move ranking at least `lo` are equal.
proof fn lemma_unique_above(
    g: GameState,
    a: Seq<(GameMove, GameState)>,
    b: Seq<(GameMove, GameState)>,
    lo: int,
)
    requires
        gen_sound(g, a),
        gen_sorted(a),
        gen_sound(g, b),
        gen_sorted(b),
        forall|i: int| 0 <= i < a.len() ==> spec_rank((#[trigger] a[i]).0) >= lo,
        forall|i: int| 0 <= i < b.len() ==> spec_rank((#[trigger] b[i]).0) >= lo,
        forall|m: GameMove|
            #[trigger] is_legal(g, m) && spec_rank(m) >= lo ==> contains_move(a, m)
                && contains_move(b, m),
    ensures
        a == b,
    decreases a.len(),
{
    if a.len() == 0 {
        if b.len() > 0 {
            assert(contains_move(a, b[0].0));
        }
        assert(a =~= b);
    } else if b.len() == 0 {
        assert(contains_move(b, a[0].0));
    } else {
        let ma = a[0].0;
        let mb = b[0].0;
        let ia = choose|i: int| 0 <= i < b.len() && b[i].0 == ma;
        let ib = choose|i: int| 0 <= i < a.len() && a[i].0 == mb;
        assert(spec_rank(b[0].0) <= spec_rank(b[ia].0));
        assert(spec_rank(a[0].0) <= spec_rank(a[ib].0));
        if ia > 0 {
            assert(spec_rank(mb) < spec_rank(ma));
        }
        assert(ma == mb);
        assert(a[0] == b[0]);
        let lo2 = spec_rank(ma) + 1;
        let a2 = a.drop_first();
        let b2 = b.drop_first();
        assert forall|m: GameMove| #[trigger] is_legal(g, m) && spec_rank(m) >= lo2 implies
            contains_move(a2, m) && contains_move(b2, m) by {
            let i = choose|i: int| 0 <= i < a.len() && a[i].0 == m;
            assert(i > 0);
            assert(a2[i - 1].0 == m);
            let j = choose|j: int| 0 <= j < b.len() && b[j].0 == m;
            assert(j > 0);
            assert(b2[j - 1].0 == m);
        }
        lemma_unique_above(g, a2, b2, lo2);
        assert(a =~= b);
    }
}

/// Law: the generator's contract pins its output completely. Any two pair
/// sequences that are sound, sorted by rank, and complete for the same
/// position are equal — so the three clauses of `GameState::branch`
/// determine its result uniquely.
pub proof fn lemma_generator_output_unique(
    g: GameState,
    a: Seq<(GameMove, GameState)>,
    b: Seq<(GameMove, GameState)>,
)
    requires
        gen_sound(g, a),
        gen_sorted(a),
        gen_complete(g, a),
        gen_sound(g, b),
        gen_sorted(b),
        gen_complete(g, b),
    ensures
        a == b,
{
    assert forall|i: int| 0 <= i < a.len() implies spec_rank((#[trigger] a[i]).0) >= 0 by {
        lemma_rank_range(g, a[i].0);
    }
    assert forall|i: int| 0 <= i < b.len() implies spec_rank((#[trigger] b[i]).0) >= 0 by {
        lemma_rank_range(g, b[i].0);
    }
    lemma_unique_above(g, a, b, 0);
}

/// Two legal moves of equal rank are the same move: the rank encoding is
/// injective on legal moves.
proof fn lemma_rank_injective(g: GameState, m1: GameMove, m2: GameMove)
    requires
        is_legal(g, m1),
        is_legal(g, m2),
        spec_rank(m1) == spec_rank(m2),
    ensures
        m1 == m2,
{
    lemma_rank_range(g, m1);
    let r = spec_rank(m1);
    let d = r / 32;
    let off = r % 32;
    assert(r == d * 32 + off);
    let dr = d / 4;
    let dc = d % 4;
    assert(d == dr * 4 + dc);
    if off < NUM_SIZES as int {
        lemma_rank_place_unique(g, m1, dr as usize, dc as usize, off as usize);
        lemma_rank_place_unique(g, m2, dr as usize, dc as usize, off as usize);
    } else if off < 16 {
        lemma_rank_gap(g, m1, d);
    } else {
        let s = off - 16;
        let sr = s / 4;
        let sc = s % 4;
        assert(s == sr * 4 + sc);
        lemma_rank_move_unique(g, m1, dr as usize, dc as usize, sr as usize, sc as usize);
        lemma_rank_move_unique(g, m2, dr as usize, dc as usize, sr as usize, sc as usize);
    }
}

/// Some sound, sorted sequence holds exactly the legal moves ranking below
/// `b`: built rank by rank.
proof fn lemma_triple_exists_below(g: GameState, b: int)
    requires
        0 <= b,
    ensures
        exists|s: Seq<(GameMove, GameState)>|
            gen_sound(g, s) && gen_sorted(s) && gen_below(s, b) && #[trigger] gen_complete_below(
                g,
                s,
                b,
            ),
    decreases b,
{
    if b == 0 {
        let s0 = Seq::<(GameMove, GameState)>::empty();
        assert forall|m: GameMove| #[trigger] is_legal(g, m) && spec_rank(m) < 0 implies
            contains_move(s0, m) by {
            lemma_rank_range(g, m);
        }
        assert(gen_complete_below(g, s0, 0));
    } else {
        lemma_triple_exists_below(g, b - 1);
        let s = choose|s: Seq<(GameMove, GameState)>|
            gen_sound(g, s) && gen_sorted(s) && gen_below(s, b - 1) && #[trigger] gen_complete_below(
                g,
                s,
                b - 1,
            );
        if exists|m: GameMove| is_legal(g, m) && spec_rank(m) == b - 1 {
            let m = choose|m: GameMove| is_legal(g, m) && spec_rank(m) == b - 1;
            let s2 = s.push((m, apply_spec(g, m)));
            assert forall|mm: GameMove| #[trigger] is_legal(g, mm) && spec_rank(mm) < b implies
                contains_move(s2, mm) by {
                if spec_rank(mm) < b - 1 {
                    let i = choose|i: int| 0 <= i < s.len() && s[i].0 == mm;
                    assert(s2[i].0 == mm);
                } else {
                    lemma_rank_injective(g, mm, m);
                    assert(s2[s.len() as int].0 == mm);
                }
            }
            assert(gen_complete_below(g, s2, b));
        } else {
            assert forall|mm: GameMove| #[trigger] is_legal(g, mm) && spec_rank(mm) < b implies
                contains_move(s, mm) by {
                assert(spec_rank(mm) != b - 1);
            }
            assert(gen_complete_below(g, s, b));
        }
    }
}

/// The canonical generator output for a position: the unique sound, sorted
/// and complete pair sequence. `GameState::branch` returns exactly this
/// sequence, by its contract and the uniqueness law.
pub open spec fn legal_pairs(g: GameState) -> Seq<(GameMove, GameState)> {
    choose|s: Seq<(GameMove, GameState)>|
        gen_sound(g, s) && gen_sorted(s) && #[trigger] gen_complete(g, s)
}

/// `legal_pairs` deserves its name: it is sound, sorted and complete, and
/// any sequence with those three properties equals it.
pub proof fn lemma_legal_pairs_canonical(g: GameState)
    ensures
        gen_sound(g, legal_pairs(g)),
        gen_sorted(legal_pairs(g)),
        gen_complete(g, legal_pairs(g)),
        forall|s: Seq<(GameMove, GameState)>|
            gen_sound(g, s) && gen_sorted(s) && #[trigger] gen_complete(g, s) ==> s == legal_pairs(
                g,
            ),
{
    lemma_triple_exists_below(g, 512);
    let s = choose|s: Seq<(GameMove, GameState)>|
        gen_sound(g, s) && gen_sorted(s) && gen_below(s, 512) && #[trigger] gen_complete_below(
            g,
            s,
            512,
        );
    assert forall|m: GameMove| #[trigger] is_legal(g, m) implies contains_move(s, m) by {
        lemma_rank_range(g, m);
    }
    assert(gen_complete(g, s));
    assert forall|t: Seq<(GameMove, GameState)>|
        gen_sound(g, t) && gen_sorted(t) && #[trigger] gen_complete(g, t) implies t == legal_pairs(
        g,
    ) by {
        lemma_generator_output_unique(g, t, legal_pairs(g));
    }
}

/// Law: generation preserves the position invariant. Every child the
/// generator pairs with a move satisfies the placed-plus-reserve account
/// whenever the parent does.
pub proof fn lemma_generation_preserves_invariant(
    g: GameState,
    s: Seq<(GameMove, GameState)>,
    i: int,
)
    requires
        reserves_invariant(g),
        gen_sound(g, s),
        0 <= i < s.len(),
    ensures
        reserves_invariant(s[i].1),
{
    lemma_apply_preserves_invariant(g, s[i].0);
}

/// Law: every pair the generator reports replays exactly. The move is
/// legal for its source position, and applying it (the same `apply_spec`
/// that `GameState::apply_move` realizes in place) reproduces precisely
/// the child position the generator paired with it.
pub proof fn lemma_replay_matches_child(g: GameState, s: Seq<(GameMove, GameState)>, i: int)
    requires
        gen_sound(g, s),
        0 <= i < s.len(),
    ensures
        is_legal(g, s[i].0),
        apply_spec(g, s[i].0) == s[i].1,
{
}

/// Law: on a board of empty stacks the legal moves are exactly the
/// `Place` moves of an in-range size the mover still holds, at any cell;
/// in particular no `Move` move is legal, since no stack out-tops another.
pub proof fn lemma_empty_board_moves(g: GameState, m: GameMove)
    requires
        forall|r: int, c: int|
            0 <= r < BOARD_DIM as int && 0 <= c < BOARD_DIM as int ==> spec_top(
                #[trigger] spec_at(g.board, r, c),
            ) == 0,
    ensures
        is_legal(g, m) <==> (m matches GameMove::Place { size, dest } && size < NUM_SIZES
            && dest.0 < BOARD_DIM && dest.1 < BOARD_DIM && spec_reserve(g, g.turn)[size as int]
            > 0),
{
}

/// Law: when exactly one cell holds a single smallest piece and every
/// other stack is empty, every cell is a valid `Place` destination for
/// every reserved size of at least the stack's height, and the occupied
/// cell is a valid `Move` source to every other cell.
pub proof fn lemma_single_stack_moves(g: GameState, r0: int, c0: int)
    requires
        0 <= r0 < BOARD_DIM as int,
        0 <= c0 < BOARD_DIM as int,
        spec_top(spec_at(g.board, r0, c0)) == 1,
        forall|r: int, c: int|
            0 <= r < BOARD_DIM as int && 0 <= c < BOARD_DIM as int && !(r == r0 && c == c0)
                ==> spec_top(#[trigger] spec_at(g.board, r, c)) == 0,
    ensures
        forall|size: int, r: int, c: int|
            0 <= size < NUM_SIZES as int && 0 <= r < BOARD_DIM as int && 0 <= c < BOARD_DIM as int
                && !(r == r0 && c == c0) && spec_reserve(g, g.turn)[size] > 0 ==> is_place_legal(
                g,
                size,
                r,
                c,
            ),
        forall|r: int, c: int|
            0 <= r < BOARD_DIM as int && 0 <= c < BOARD_DIM as int && !(r == r0 && c == c0)
                ==> is_move_legal(g, r0, c0, r, c),
{
}

impl GameState {
    /// Every legal move for the side to move, paired with the position it
    /// produces: exactly the legal moves, in strictly increasing rank
    /// order, each child equal to applying its move to this position.
    #[verifier::loop_isolation(false)]
    pub fn branch(&self) -> (res: Vec<(GameMove, GameState)>)
        ensures
            gen_sound(*self, res@),
            gen_sorted(res@),
            gen_complete(*self, res@),
    {
        let ghost gv = *self;
        let avail = if self.turn == Color::White {
            self.white_pieces
        } else {
            self.black_pieces
        };
        proof {
            assert(avail@ == spec_reserve(gv, gv.turn));
        }
        let mut res: Vec<(GameMove, GameState)> = Vec::new();

        let mut dr: usize = 0;
        while dr < BOARD_DIM
            invariant
                dr <= BOARD_DIM,
                gen_sound(gv, res@),
                gen_sorted(res@),
                gen_below(res@, dr as int * 128),
                gen_complete_below(gv, res@, dr as int * 128),
            decreases BOARD_DIM - dr,
        {
            let mut dc: usize = 0;
            while dc < BOARD_DIM
                invariant
                    dc <= BOARD_DIM,
                    gen_sound(gv, res@),
                    gen_sorted(res@),
                    gen_below(res@, dr as int * 128 + dc as int * 32),
                    gen_complete_below(gv, res@, dr as int * 128 + dc as int * 32),
                decreases BOARD_DIM - dc,
            {
                let ghost band = dr as int * 128 + dc as int * 32;
                let dest_top = self.board.at(dr, dc).top();

                let mut size: usize = 0;
                while size < NUM_SIZES
                    invariant
                        size <= NUM_SIZES,
                        gen_sound(gv, res@),
                        gen_sorted(res@),
                        gen_below(res@, band + size as int),
                        gen_complete_below(gv, res@, band + size as int),
                    decreases NUM_SIZES - size,
                {
                    let m = GameMove::Place { size, dest: (dr, dc) };
                    proof {
                        assert(spec_rank(m) == band + size as int);
                    }
                    let ghost res0 = res@;
                    if avail[size] > 0 && size >= dest_top {
                        proof {
                            assert(is_legal(gv, m));
                        }
                        let mut child = *self;
                        child.apply_move(m);
                        res.push((m, child));
                    } else {
                        proof {
                            assert(!is_legal(gv, m));
                        }
                    }
                    proof {
                        assert forall|mm: GameMove|
                            #[trigger] is_legal(gv, mm) && spec_rank(mm) < band + size as int
                                + 1 implies contains_move(res@, mm) by {
                            if spec_rank(mm) < band + size as int {
                                assert(contains_move(res0, mm));
                                if res@ != res0 {
                                    let i = choose|i: int|
                                        0 <= i < res0.len() && res0[i].0 == mm;
                                    assert(res@[i].0 == mm);
                                }
                            } else {
                                lemma_rank_place_unique(gv, mm, dr, dc, size);
                                assert(res@[res@.len() - 1].0 == mm);
                            }
                        }
                    }
                    size = size + 1;
                }

                proof {
                    assert forall|mm: GameMove|
                        #[trigger] is_legal(gv, mm) && spec_rank(mm) < band + 16 implies
                        contains_move(res@, mm) by {
                        lemma_rank_gap(gv, mm, dr as int * 4 + dc as int);
                    }
                }

                let mut sr: usize = 0;
                while sr < BOARD_DIM
                    invariant
                        sr <= BOARD_DIM,
                        gen_sound(gv, res@),
                        gen_sorted(res@),
                        gen_below(res@, band + 16 + sr as int * 4),
                        gen_complete_below(gv, res@, band + 16 + sr as int * 4),
                    decreases BOARD_DIM - sr,
                {
                    let mut sc: usize = 0;
                    while sc < BOARD_DIM
                        invariant
                            sc <= BOARD_DIM,
                            gen_sound(gv, res@),
                            gen_sorted(res@),
                            gen_below(res@, band + 16 + sr as int * 4 + sc as int),
                            gen_complete_below(gv, res@, band + 16 + sr as int * 4 + sc as int),
                        decreases BOARD_DIM - sc,
                    {
                        let m = GameMove::Move { source: (sr, sc), dest: (dr, dc) };
                        proof {
                            assert(spec_rank(m) == band + 16 + sr as int * 4 + sc as int);
                        }
                        let ghost res0 = res@;
                        let source_top = self.board.at(sr, sc).top();
                        if source_top > dest_top && (sr != dr || sc != dc) {
                            proof {
                                assert(is_legal(gv, m));
                            }
                            let mut child = *self;
                            child.apply_move(m);
                            res.push((m, child));
                        } else {
                            proof {
                                assert(!is_legal(gv, m));
                            }
                        }
                        proof {
                            assert forall|mm: GameMove|
                                #[trigger] is_legal(gv, mm) && spec_rank(mm) < band + 16 + sr as int
                                    * 4 + sc as int + 1 implies contains_move(res@, mm) by {
                                if spec_rank(mm) < band + 16 + sr as int * 4 + sc as int {
                                    assert(contains_move(res0, mm));
                                    if res@ != res0 {
                                        let i = choose|i: int|
                                            0 <= i < res0.len() && res0[i].0 == mm;
                                        assert(res@[i].0 == mm);
                                    }
                                } else {
                                    lemma_rank_move_unique(gv, mm, dr, dc, sr, sc);
                                    assert(res@[res@.len() - 1].0 == mm);
                                }
                            }
                        }
                        sc = sc + 1;
                    }
                    sr = sr + 1;
                }
                dc = dc + 1;
            }
            dr = dr + 1;
        }
        proof {
            assert forall|mm: GameMove| #[trigger] is_legal(gv, mm) implies contains_move(
                res@,
                mm,
            ) by {
                lemma_rank_range(gv, mm);
            }
        }
        res
    }
}

} // verus!
