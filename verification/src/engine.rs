//! The search tree and its minimax expansion. A node wraps a position as a
//! fresh leaf, or owns the ordered list of (move, child) pairs it expanded
//! into, or is resolved: its outcome is a forced win and further search is
//! pointless. Scores back up from children by maximum for white to move and
//! minimum for black to move.

use vstd::prelude::*;

use crate::eval::spec_raw_score;
use crate::game::Color;
use crate::game::GameMove;
use crate::game::GameState;
use crate::game::is_legal;
use crate::game::apply_spec;
use crate::movegen::gen_complete;
use crate::movegen::gen_sorted;
use crate::movegen::gen_sound;
use crate::movegen::legal_pairs;
use crate::movegen::lemma_legal_pairs_canonical;
use crate::movegen::spec_rank;
use crate::score::Score;
use crate::score::score_key;
use crate::score::spec_is_win;

verus! {

/// What a node currently holds: a fresh unexpanded position, the expanded
/// ordered children, or nothing — the node's outcome is already forced.
pub enum NodeState {
    GameState(GameState),
    Branches(Vec<(GameMove, Node)>),
    Resolved,
}

/// One node of the search tree: its best known score, the side to move at
/// this node, and its expansion state.
pub struct Node {
    pub score: Score,
    pub turn: Color,
    pub state: NodeState,
}

/// The fresh leaf node wrapping a position: statically evaluated, turn
/// taken from the position.
pub open spec fn spec_new_node(g: GameState) -> Node {
    Node { score: spec_raw_score(g), turn: g.turn, state: NodeState::GameState(g) }
}

/// `n` is the fresh leaf node for `g`.
pub open spec fn is_leaf_for(n: Node, g: GameState) -> bool {
    n == spec_new_node(g)
}

/// The children's scores, in order.
pub open spec fn scores_of(cs: Seq<(GameMove, Node)>) -> Seq<Score> {
    cs.map_values(|p: (GameMove, Node)| p.1.score)
}

/// The preferred of two scores for the given side to move: the larger key
/// for white, the smaller otherwise (mirroring how the executable code
/// branches on white).
pub open spec fn spec_better(turn: Color, a: Score, b: Score) -> Score {
    if turn is White {
        if score_key(b) > score_key(a) {
            b
        } else {
            a
        }
    } else {
        if score_key(b) < score_key(a) {
            b
        } else {
            a
        }
    }
}

/// The best score of a non-empty sequence for the given side to move:
/// maximum for white, minimum otherwise.
pub open spec fn seq_best(turn: Color, s: Seq<Score>) -> Score
    recommends
        s.len() > 0,
    decreases s.len(),
{
    if s.len() <= 1 {
        s[0]
    } else {
        spec_better(turn, seq_best(turn, s.drop_last()), s.last())
    }
}

/// The best score of a non-empty sequence is one of its elements, and it
/// is extreme: no element has a larger key when white is to move, nor a
/// smaller key otherwise.
pub proof fn lemma_seq_best_is_optimum(turn: Color, s: Seq<Score>)
    requires
        s.len() > 0,
    ensures
        exists|i: int| 0 <= i < s.len() && s[i] == seq_best(turn, s),
        turn is White ==> forall|i: int|
            0 <= i < s.len() ==> score_key(#[trigger] s[i]) <= score_key(seq_best(turn, s)),
        !(turn is White) ==> forall|i: int|
            0 <= i < s.len() ==> score_key(#[trigger] s[i]) >= score_key(seq_best(turn, s)),
    decreases s.len(),
{
    if s.len() <= 1 {
        assert(s[0] == seq_best(turn, s));
    } else {
        let dl = s.drop_last();
        lemma_seq_best_is_optimum(turn, dl);
        let bb = seq_best(turn, dl);
        let b = seq_best(turn, s);
        if b == bb {
            let i = choose|i: int| 0 <= i < dl.len() && dl[i] == bb;
            assert(s[i] == b);
        } else {
            assert(s[s.len() - 1] == b);
        }
        if turn is White {
            assert forall|i: int| 0 <= i < s.len() implies score_key(#[trigger] s[i]) <= score_key(
                b,
            ) by {
                if i < s.len() - 1 {
                    assert(dl[i] == s[i]);
                    assert(score_key(dl[i]) <= score_key(bb));
                }
            }
        } else {
            assert forall|i: int| 0 <= i < s.len() implies score_key(#[trigger] s[i]) >= score_key(
                b,
            ) by {
                if i < s.len() - 1 {
                    assert(dl[i] == s[i]);
                    assert(score_key(dl[i]) >= score_key(bb));
                }
            }
        }
    }
}

/// How a node looks right after its score was backed up from the children
/// `cs`: score and turn as the back-up rule says, and the state either
/// resolved (the backed-up score is a win marker) or owning exactly `cs`.
/// An empty `cs` is the degenerate full-board case: the score falls back
/// to the node's previous score.
pub open spec fn node_after(turn: Color, fallback: Score, cs: Seq<(GameMove, Node)>, post: Node) -> bool {
    if cs.len() == 0 {
        &&& post.turn == turn
        &&& post.score == fallback
        &&& (post.state matches NodeState::Branches(v) && v@ == cs)
    } else {
        let s = seq_best(turn, scores_of(cs));
        &&& post.turn == turn
        &&& post.score == s
        &&& (if spec_is_win(s) {
            post.state is Resolved
        } else {
            post.state matches NodeState::Branches(v) && v@ == cs
        })
    }
}

/// The children a leaf for `g` expands into, to the given remaining depth:
/// exactly the legal moves of `g` in rank order, each child being the
/// fresh leaf of its position when no depth remains, and a fully expanded
/// node otherwise.
pub open spec fn leaf_children_ok(g: GameState, cs: Seq<(GameMove, Node)>, depth: int) -> bool
    decreases depth, 0int,
{
    &&& (forall|m: GameMove| #[trigger] is_legal(g, m) ==> exists|i: int|
        0 <= i < cs.len() && cs[i].0 == m)
    &&& (forall|i: int, j: int|
        0 <= i < j < cs.len() ==> spec_rank((#[trigger] cs[i]).0) < spec_rank((#[trigger] cs[j]).0))
    &&& (forall|i: int| 0 <= i < cs.len() ==> is_legal(g, (#[trigger] cs[i]).0))
    &&& (forall|i: int|
        0 <= i < cs.len() ==> {
            let child = apply_spec(g, (#[trigger] cs[i]).0);
            if depth <= 1 {
                is_leaf_for(cs[i].1, child)
            } else {
                expanded_leaf_rel(child, spec_raw_score(child), child.turn, cs[i].1, depth - 1)
            }
        })
}

/// The children of an already expanded node after deepening: the same
/// moves, each child expanded one level less deep.
pub open spec fn branches_children_ok(
    cs0: Seq<(GameMove, Node)>,
    cs: Seq<(GameMove, Node)>,
    depth: int,
) -> bool
    decreases depth, 0int,
{
    &&& cs.len() == cs0.len()
    &&& (forall|i: int| 0 <= i < cs.len() ==> (#[trigger] cs[i]).0 == cs0[i].0)
    &&& (if depth > 1 {
        forall|i: int| 0 <= i < cs.len() ==> expand_rel(cs0[i].1, (#[trigger] cs[i]).1, depth - 1)
    } else {
        true
    })
}

/// What expanding a fresh leaf of `g` (whose node carried `pre_score` and
/// `pre_turn`) produces: if the static evaluation already reported a win,
/// the node resolves directly without generating children; otherwise the
/// children are generated, deepened, and the score is backed up.
pub open spec fn expanded_leaf_rel(
    g: GameState,
    pre_score: Score,
    pre_turn: Color,
    post: Node,
    depth: int,
) -> bool
    decreases depth, 1int,
{
    if spec_is_win(pre_score) {
        post == (Node { score: pre_score, turn: pre_turn, state: NodeState::Resolved })
    } else {
        exists|cs: Seq<(GameMove, Node)>|
            leaf_children_ok(g, cs, depth) && #[trigger] node_after(pre_turn, pre_score, cs, post)
    }
}

/// The full meaning of one `expand` call: a resolved node never changes; an
/// expanded node is left alone when no depth remains and otherwise has all
/// its children deepened and its score backed up; a fresh leaf expands.
pub open spec fn expand_rel(pre: Node, post: Node, depth: int) -> bool
    decreases depth, 2int,
{
    match pre.state {
        NodeState::Resolved => post == pre,
        NodeState::GameState(g) => expanded_leaf_rel(g, pre.score, pre.turn, post, depth),
        NodeState::Branches(cs0) => {
            if depth <= 1 {
                post == pre
            } else {
                exists|cs: Seq<(GameMove, Node)>|
                    branches_children_ok(cs0@, cs, depth) && #[trigger] node_after(
                        pre.turn,
                        pre.score,
                        cs,
                        post,
                    )
            }
        },
    }
}

/// A witnessed leaf expansion establishes `expanded_leaf_rel`.
proof fn lemma_expanded_leaf_intro(
    g: GameState,
    pre_score: Score,
    pre_turn: Color,
    post: Node,
    depth: int,
    cs: Seq<(GameMove, Node)>,
)
    requires
        !spec_is_win(pre_score),
        leaf_children_ok(g, cs, depth),
        node_after(pre_turn, pre_score, cs, post),
    ensures
        expanded_leaf_rel(g, pre_score, pre_turn, post, depth),
{
}

/// A witnessed deepening of an expanded node establishes `expand_rel`.
proof fn lemma_expand_branches_intro(pre: Node, post: Node, depth: int, cs: Seq<(GameMove, Node)>)
    requires
        pre.state is Branches,
        depth > 1,
        branches_children_ok(pre.state->Branches_0@, cs, depth),
        node_after(pre.turn, pre.score, cs, post),
    ensures
        expand_rel(pre, post, depth),
{
}

/// The minimax value of a position at a given remaining depth: the static
/// evaluation at the horizon, at a position the previous mover has already
/// won (where search stops, as a resolved node does), and at a full board
/// with no legal move; otherwise the best — maximum for white to move,
/// minimum otherwise — of the children's values one level shallower.
pub open spec fn minimax_value(g: GameState, depth: int) -> Score
    decreases depth, 0int, 0int,
{
    if spec_is_win(spec_raw_score(g)) || depth <= 0 {
        spec_raw_score(g)
    } else {
        let cs = legal_pairs(g);
        if cs.len() == 0 {
            spec_raw_score(g)
        } else {
            seq_best(g.turn, minimax_values(cs, depth - 1, cs.len() as int))
        }
    }
}

/// The minimax values of the first `n` listed child positions, at the
/// given remaining depth.
pub open spec fn minimax_values(cs: Seq<(GameMove, GameState)>, depth: int, n: int) -> Seq<Score>
    decreases depth, 1int, n,
{
    if n <= 0 {
        Seq::empty()
    } else {
        minimax_values(cs, depth, n - 1).push(minimax_value(cs[n - 1].1, depth))
    }
}

/// `minimax_values` lists exactly the per-child minimax values.
proof fn lemma_minimax_values_index(cs: Seq<(GameMove, GameState)>, depth: int, n: int)
    requires
        0 <= n <= cs.len(),
    ensures
        minimax_values(cs, depth, n).len() == n,
        forall|i: int|
            0 <= i < n ==> minimax_values(cs, depth, n)[i] == minimax_value(
                (#[trigger] cs[i]).1,
                depth,
            ),
    decreases n,
{
    if n > 0 {
        lemma_minimax_values_index(cs, depth, n - 1);
    }
}

/// Law: a full-width expansion computes the minimax value. Expanding a
/// fresh leaf for `g` to any depth of at least one leaves the node's score
/// equal to `minimax_value(g, depth)`.
#[verifier::rlimit(100)]
pub proof fn lemma_expansion_computes_minimax(g: GameState, post: Node, depth: int)
    requires
        depth >= 1,
        expanded_leaf_rel(g, spec_raw_score(g), g.turn, post, depth),
    ensures
        post.score == minimax_value(g, depth),
    decreases depth,
{
    if !spec_is_win(spec_raw_score(g)) {
        let cs = choose|cs: Seq<(GameMove, Node)>|
            leaf_children_ok(g, cs, depth) && #[trigger] node_after(
                g.turn,
                spec_raw_score(g),
                cs,
                post,
            );
        lemma_legal_pairs_canonical(g);
        let cp = Seq::new(cs.len(), |i: int| (cs[i].0, apply_spec(g, cs[i].0)));
        assert forall|m: GameMove| #[trigger] is_legal(g, m) implies exists|i: int|
            0 <= i < cp.len() && cp[i].0 == m by {
            let i = choose|i: int| 0 <= i < cs.len() && cs[i].0 == m;
            assert(cp[i].0 == m);
        }
        assert(gen_sound(g, cp));
        assert(gen_sorted(cp));
        assert(gen_complete(g, cp));
        assert(cp == legal_pairs(g));
        assert forall|i: int| 0 <= i < cs.len() implies (#[trigger] cs[i]).1.score
            == minimax_value(apply_spec(g, cs[i].0), depth - 1) by {
            let child = apply_spec(g, cs[i].0);
            if depth <= 1 {
                assert(is_leaf_for(cs[i].1, child));
            } else {
                lemma_expansion_computes_minimax(child, cs[i].1, depth - 1);
            }
        }
        if cs.len() > 0 {
            let lp = legal_pairs(g);
            lemma_minimax_values_index(lp, depth - 1, lp.len() as int);
            let vals = minimax_values(lp, depth - 1, lp.len() as int);
            assert(scores_of(cs) =~= vals);
            assert(post.score == seq_best(g.turn, scores_of(cs)));
            assert(minimax_value(g, depth) == seq_best(g.turn, vals));
        } else {
            assert(legal_pairs(g).len() == 0);
            assert(post.score == spec_raw_score(g));
            assert(minimax_value(g, depth) == spec_raw_score(g));
        }
    } else {
        assert(post.score == spec_raw_score(g));
        assert(minimax_value(g, depth) == spec_raw_score(g));
    }
}

/// Law: searching from a fresh root computes the minimax value of its
/// position. For any fresh leaf node, one `expand` call to depth at least
/// one leaves the root score equal to `minimax_value` of the wrapped
/// position at that depth.
pub proof fn lemma_fresh_search_computes_minimax(pre: Node, post: Node, g: GameState, depth: int)
    requires
        depth >= 1,
        is_leaf_for(pre, g),
        expand_rel(pre, post, depth),
    ensures
        post.score == minimax_value(g, depth),
{
    lemma_expansion_computes_minimax(g, post, depth);
}

/// Structural equality of two trees: same scores, turns and moves
/// throughout, with the children compared element by element. Node
/// contracts pin the children of an expansion only up to the view of the
/// vector that holds them, so the no-op laws below speak of this
/// equivalence; it is implied by plain equality.
pub open spec fn node_equiv(a: Node, b: Node) -> bool
    decreases a,
{
    &&& a.score == b.score
    &&& a.turn == b.turn
    &&& match (a.state, b.state) {
        (NodeState::Resolved, NodeState::Resolved) => true,
        (NodeState::GameState(x), NodeState::GameState(y)) => x == y,
        (NodeState::Branches(u), NodeState::Branches(v)) => u@.len() == v@.len() && (forall|
            i: int,
        |
            0 <= i < u@.len() ==> (#[trigger] u@[i]).0 == v@[i].0 && node_equiv(u@[i].1, v@[i].1)),
        _ => false,
    }
}

/// Equality implies tree equivalence.
pub proof fn lemma_node_equiv_refl(n: Node)
    ensures
        node_equiv(n, n),
    decreases n,
{
    match n.state {
        NodeState::Branches(cs) => {
            assert forall|i: int| 0 <= i < cs@.len() implies (#[trigger] cs@[i]).0 == cs@[i].0
                && node_equiv(cs@[i].1, cs@[i].1) by {
                lemma_node_equiv_refl(cs@[i].1);
            }
        },
        _ => {},
    }
}

/// A tree in the shape one `expand` call to the given depth leaves behind:
/// every node down to `depth` levels is expanded or resolved, with its
/// score backed up from its children (a node whose backed-up score were a
/// win marker would have resolved). Nodes below that horizon, the frontier
/// leaves among them, are unconstrained.
pub open spec fn expanded_to(n: Node, depth: int) -> bool
    decreases depth,
{
    match n.state {
        NodeState::Resolved => true,
        NodeState::GameState(_) => false,
        NodeState::Branches(cs) => {
            &&& (cs@.len() > 0 ==> n.score == seq_best(n.turn, scores_of(cs@)) && !spec_is_win(
                n.score,
            ))
            &&& (depth > 1 ==> forall|i: int|
                0 <= i < cs@.len() ==> expanded_to((#[trigger] cs@[i]).1, depth - 1))
        },
    }
}

/// Law: expanding a fresh leaf to any depth of at least one leaves a tree
/// expanded to that depth.
pub proof fn lemma_expand_establishes(g: GameState, pre_score: Score, pre_turn: Color, post: Node, depth: int)
    requires
        depth >= 1,
        expanded_leaf_rel(g, pre_score, pre_turn, post, depth),
    ensures
        expanded_to(post, depth),
    decreases depth,
{
    if !spec_is_win(pre_score) {
        let cs = choose|cs: Seq<(GameMove, Node)>|
            leaf_children_ok(g, cs, depth) && #[trigger] node_after(pre_turn, pre_score, cs, post);
        if cs.len() > 0 && !spec_is_win(seq_best(pre_turn, scores_of(cs))) {
            assert(post.state matches NodeState::Branches(v) && v@ == cs);
            if depth > 1 {
                assert forall|i: int| 0 <= i < cs.len() implies expanded_to(
                    (#[trigger] cs[i]).1,
                    depth - 1,
                ) by {
                    let child = apply_spec(g, cs[i].0);
                    assert(expanded_leaf_rel(
                        child,
                        spec_raw_score(child),
                        child.turn,
                        cs[i].1,
                        depth - 1,
                    ));
                    lemma_expand_establishes(
                        child,
                        spec_raw_score(child),
                        child.turn,
                        cs[i].1,
                        depth - 1,
                    );
                }
            }
        }
    }
}

/// Law: expanding a fresh leaf node to any depth of at least one leaves a
/// tree expanded to that depth — the entry point for the no-op law below.
pub proof fn lemma_expand_fresh_establishes(pre: Node, post: Node, depth: int)
    requires
        depth >= 1,
        pre.state is GameState,
        expand_rel(pre, post, depth),
    ensures
        expanded_to(post, depth),
{
    lemma_expand_establishes(pre.state->GameState_0, pre.score, pre.turn, post, depth);
}

/// Law: on a tree already expanded to depth `d0`, a further `expand` call
/// with any depth between one and `d0` is a no-op. It alters no score,
/// creates no node, and changes no node's state anywhere in the tree (up
/// to `node_equiv`, which is how the expansion contract pins children).
pub proof fn lemma_smaller_depth_noop(pre: Node, post: Node, d0: int, depth: int)
    requires
        1 <= depth <= d0,
        expanded_to(pre, d0),
        expand_rel(pre, post, depth),
    ensures
        node_equiv(post, pre),
    decreases depth,
{
    match pre.state {
        NodeState::Resolved => {
            lemma_node_equiv_refl(pre);
        },
        NodeState::GameState(_) => {},
        NodeState::Branches(cs0) => {
            if depth <= 1 {
                lemma_node_equiv_refl(pre);
            } else {
                let cs = choose|cs: Seq<(GameMove, Node)>|
                    branches_children_ok(cs0@, cs, depth) && #[trigger] node_after(
                        pre.turn,
                        pre.score,
                        cs,
                        post,
                    );
                assert forall|i: int| 0 <= i < cs.len() implies (#[trigger] cs[i]).0 == cs0@[i].0
                    && node_equiv(cs[i].1, cs0@[i].1) by {
                    lemma_smaller_depth_noop(cs0@[i].1, cs[i].1, d0 - 1, depth - 1);
                }
                if cs.len() > 0 {
                    assert(scores_of(cs) =~= scores_of(cs0@));
                    assert(post.score == pre.score);
                    assert(!spec_is_win(post.score));
                    assert(post.state matches NodeState::Branches(v) && v@ == cs);
                }
            }
        },
    }
}

/// Law: a resolved node is final. Expanding it, to any depth, leaves it
/// exactly as it was.
pub proof fn lemma_resolved_short_circuit(pre: Node, post: Node, depth: int)
    requires
        pre.state is Resolved,
        expand_rel(pre, post, depth),
    ensures
        post == pre,
{
}

/// Law: expanding an already expanded node with no remaining depth is a
/// no-op; in particular it alters no score.
pub proof fn lemma_shallow_expand_noop(pre: Node, post: Node, depth: int)
    requires
        pre.state is Branches,
        depth <= 1,
        expand_rel(pre, post, depth),
    ensures
        post == pre,
{
}

impl Node {
    /// Wrap a position as a fresh leaf: score it statically and remember
    /// whose turn it is.
    pub fn new(game: GameState) -> (r: Node)
        ensures
            r == spec_new_node(game),
    {
        Node { score: game.raw_score(), turn: game.turn, state: NodeState::GameState(game) }
    }

    /// Back up this node's score from its children: the maximum of their
    /// scores when white is to move here, the minimum otherwise. If the
    /// backed-up score is a win marker the node resolves. A node without
    /// children — not expanded, resolved, or the degenerate case of no
    /// legal moves — is left untouched.
    #[verifier::loop_isolation(false)]
    pub fn update_score(&mut self)
        ensures
            !(old(self).state is Branches) ==> *final(self) == *old(self),
            (old(self).state matches NodeState::Branches(cs) ==> (if cs@.len() == 0 {
                *final(self) == *old(self)
            } else {
                node_after(old(self).turn, old(self).score, cs@, *final(self))
            })),
    {
        let is_white = self.turn == Color::White;
        let best: Score;
        match &self.state {
            NodeState::Branches(cs) => {
                if cs.len() == 0 {
                    return;
                }
                let ghost scores = scores_of(cs@);
                let mut b = cs[0].1.score;
                let mut i: usize = 1;
                while i < cs.len()
                    invariant
                        1 <= i <= cs@.len(),
                        b == seq_best(self.turn, scores.take(i as int)),
                    decreases cs@.len() - i,
                {
                    let s = cs[i].1.score;
                    proof {
                        assert(scores.take(i as int + 1).drop_last() =~= scores.take(i as int));
                        assert(scores.take(i as int + 1).last() == s);
                    }
                    if is_white {
                        if b.ranks_below(s) {
                            b = s;
                        }
                    } else {
                        if s.ranks_below(b) {
                            b = s;
                        }
                    }
                    i = i + 1;
                }
                proof {
                    assert(scores.take(cs@.len() as int) =~= scores);
                }
                best = b;
            },
            _ => {
                return;
            },
        }
        self.score = best;
        if best.is_win() {
            self.state = NodeState::Resolved;
        }
    }

    /// Expand a fresh, not already won leaf: generate the children, deepen
    /// them when depth remains, and back up the score.
    #[verifier::loop_isolation(false)]
    #[verifier::rlimit(100)]
    fn expand_fresh(&mut self, g: GameState, depth: i32)
        requires
            old(self).state == NodeState::GameState(g),
            !spec_is_win(old(self).score),
        ensures
            expanded_leaf_rel(g, old(self).score, old(self).turn, *final(self), depth as int),
        decreases depth, 0int,
    {
        let pairs = g.branch();
        let mut branches: Vec<(GameMove, Node)> = Vec::new();
        let mut i: usize = 0;
        while i < pairs.len()
            invariant
                i <= pairs@.len(),
                branches@.len() == i as int,
                forall|j: int|
                    0 <= j < i as int ==> (#[trigger] branches@[j]).0 == pairs@[j].0
                        && branches@[j].1 == spec_new_node(pairs@[j].1),
            decreases pairs@.len() - i,
        {
            let (m, st) = pairs[i];
            branches.push((m, Node::new(st)));
            i = i + 1;
        }
        if depth > 1 {
            let mut k: usize = 0;
            while k < branches.len()
                invariant
                    k <= branches@.len(),
                    branches@.len() == pairs@.len(),
                    forall|j: int|
                        0 <= j < branches@.len() ==> (#[trigger] branches@[j]).0
                            == pairs@[j].0,
                    forall|j: int|
                        k as int <= j < branches@.len() ==> (#[trigger] branches@[j]).1
                            == spec_new_node(pairs@[j].1),
                    forall|j: int|
                        0 <= j < k as int ==> expand_rel(
                            spec_new_node(pairs@[j].1),
                            (#[trigger] branches@[j]).1,
                            depth as int - 1,
                        ),
                decreases branches@.len() - k,
            {
                let p = vstd::std_specs::vec::vec_index_mut(&mut branches, k);
                p.1.branch(depth - 1);
                k = k + 1;
            }
        }
        let ghost cs2 = branches@;
        let ghost pre = *old(self);
        self.state = NodeState::Branches(branches);
        self.update_score();
        proof {
            assert forall|m: GameMove| #[trigger] is_legal(g, m) implies exists|ii: int|
                0 <= ii < cs2.len() && cs2[ii].0 == m by {
                let ii = choose|ii: int| 0 <= ii < pairs@.len() && pairs@[ii].0 == m;
                assert(cs2[ii].0 == m);
            }
            assert forall|ii: int| 0 <= ii < cs2.len() implies {
                let child = apply_spec(g, (#[trigger] cs2[ii]).0);
                if depth as int <= 1 {
                    is_leaf_for(cs2[ii].1, child)
                } else {
                    expanded_leaf_rel(
                        child,
                        spec_raw_score(child),
                        child.turn,
                        cs2[ii].1,
                        depth as int - 1,
                    )
                }
            } by {
                assert(pairs@[ii].1 == apply_spec(g, pairs@[ii].0));
                if depth as int > 1 {
                    assert(expand_rel(
                        spec_new_node(pairs@[ii].1),
                        cs2[ii].1,
                        depth as int - 1,
                    ));
                }
            }
            assert(leaf_children_ok(g, cs2, depth as int));
            assert(node_after(pre.turn, pre.score, cs2, *self));
            lemma_expanded_leaf_intro(g, pre.score, pre.turn, *self, depth as int, cs2);
        }
    }

    /// Expand this node to the given depth, as `expand_rel` states: a
    /// fresh leaf generates all its children (resolving directly if its
    /// static score is already a win), an expanded node deepens its
    /// existing children when depth remains, and in both cases the score
    /// is backed up afterwards; a resolved node, or an expanded node with
    /// no remaining depth, stays exactly as it is.
    #[verifier::loop_isolation(false)]
    #[verifier::rlimit(50)]
    pub fn branch(&mut self, depth: i32)
        ensures
            expand_rel(*old(self), *final(self), depth as int),
            old(self).state is Resolved ==> *final(self) == *old(self),
            old(self).state is Branches && depth <= 1 ==> *final(self) == *old(self),
        decreases depth, 1int,
    {
        match &self.state {
            NodeState::Resolved => {
                return;
            },
            NodeState::GameState(gref) => {
                let g: GameState = *gref;
                if self.score.is_win() {
                    self.state = NodeState::Resolved;
                    return;
                }
                self.expand_fresh(g, depth);
                return;
            },
            NodeState::Branches(_) => {},
        }
        if depth <= 1 {
            return;
        }
        let ghost pre = *old(self);
        let ghost cs0 = pre.state->Branches_0@;
        match &mut self.state {
            NodeState::Branches(cs) => {
                let mut k: usize = 0;
                while k < cs.len()
                    invariant
                        k <= cs@.len(),
                        cs@.len() == cs0.len(),
                        forall|j: int| k as int <= j < cs@.len() ==> (#[trigger] cs@[j]) == cs0[j],
                        forall|j: int| 0 <= j < k as int ==> (#[trigger] cs@[j]).0 == cs0[j].0,
                        forall|j: int|
                            0 <= j < k as int ==> expand_rel(
                                cs0[j].1,
                                (#[trigger] cs@[j]).1,
                                depth as int - 1,
                            ),
                    decreases cs@.len() - k,
                {
                    let p = vstd::std_specs::vec::vec_index_mut(cs, k);
                    p.1.branch(depth - 1);
                    k = k + 1;
                }
            },
            _ => {},
        }
        let ghost cs2 = self.state->Branches_0@;
        proof {
            assert(branches_children_ok(cs0, cs2, depth as int));
        }
        self.update_score();
        proof {
            assert(node_after(pre.turn, pre.score, cs2, *self));
            lemma_expand_branches_intro(pre, *self, depth as int, cs2);
        }
    }
}

} // verus!
