//! Scores and their total order. A score is either an absolute win marker
//! for one side or a bounded heuristic integer; win markers sit at the two
//! extremes of the order.

use vstd::prelude::*;

use crate::game::Color;
use vstd::std_specs::cmp::PartialOrdSpec;

verus! {

/// The value of a position: a forced or achieved win for one side, or a
/// heuristic balance (positive favors white, negative favors black).
#[derive(Clone, Copy, PartialEq, Eq, Structural, Debug)]
pub enum Score {
    WhiteFavored,
    BlackFavored,
    Balanced(i32),
}

/// Injection of scores into the integers that realizes their order:
/// `BlackFavored` sits below every heuristic value and `WhiteFavored`
/// above every one.
pub open spec fn score_key(s: Score) -> int {
    match s {
        Score::BlackFavored => i32::MIN as int - 1,
        Score::Balanced(n) => n as int,
        Score::WhiteFavored => i32::MAX as int + 1,
    }
}

/// Whether a score is a win marker for either side.
pub open spec fn spec_is_win(s: Score) -> bool {
    s is WhiteFavored || s is BlackFavored
}

/// The win marker of the given color (`Empty` falls to black's, mirroring
/// how the executable code branches on `White`).
pub open spec fn spec_for_color(c: Color) -> Score {
    if c is White {
        Score::WhiteFavored
    } else {
        Score::BlackFavored
    }
}

/// Scores with equal keys are equal: the key injection is faithful.
pub proof fn lemma_score_key_injective(a: Score, b: Score)
    ensures
        score_key(a) == score_key(b) <==> a == b,
{
}

impl Score {
    /// The win marker of the given color.
    pub fn for_color(color: Color) -> (r: Score)
        ensures
            r == spec_for_color(color),
    {
        if color == Color::White {
            Score::WhiteFavored
        } else {
            Score::BlackFavored
        }
    }

    /// Whether this score is a win marker for either side.
    pub fn is_win(self) -> (r: bool)
        ensures
            r == spec_is_win(self),
    {
        match self {
            Score::Balanced(_) => false,
            _ => true,
        }
    }

    /// Strict comparison under the total order: `self` ranks strictly
    /// below `other`.
    pub fn ranks_below(self, other: Score) -> (r: bool)
        ensures
            r == (score_key(self) < score_key(other)),
    {
        match (self, other) {
            (Score::BlackFavored, Score::BlackFavored) => false,
            (Score::BlackFavored, _) => true,
            (_, Score::BlackFavored) => false,
            (Score::WhiteFavored, _) => false,
            (_, Score::WhiteFavored) => true,
            (Score::Balanced(a), Score::Balanced(b)) => a < b,
        }
    }
}

impl PartialOrd for Score {
    /// The total order over scores, as an `Option<Ordering>` that is always
    /// `Some`: win markers at the extremes, heuristic values in between by
    /// their integer.
    fn partial_cmp(&self, other: &Self) -> (r: Option<core::cmp::Ordering>) {
        if self.ranks_below(*other) {
            Some(core::cmp::Ordering::Less)
        } else if other.ranks_below(*self) {
            Some(core::cmp::Ordering::Greater)
        } else {
            proof {
                lemma_score_key_injective(*self, *other);
            }
            Some(core::cmp::Ordering::Equal)
        }
    }
}

impl vstd::std_specs::cmp::PartialOrdSpecImpl for Score {
    open spec fn obeys_partial_cmp_spec() -> bool {
        true
    }

    open spec fn partial_cmp_spec(&self, other: &Self) -> Option<core::cmp::Ordering> {
        if score_key(*self) < score_key(*other) {
            Some(core::cmp::Ordering::Less)
        } else if score_key(*self) > score_key(*other) {
            Some(core::cmp::Ordering::Greater)
        } else {
            Some(core::cmp::Ordering::Equal)
        }
    }
}

/// The comparison is a total order: every pair of scores is related by
/// exactly one of less, equal, and greater; comparing equal means being
/// the same score, so a win marker never compares equal to a heuristic
/// score; and the order is antisymmetric and transitive.
pub proof fn lemma_score_order_total(a: Score, b: Score, c: Score)
    ensures
        a.partial_cmp_spec(&b) is Some,
        (a.partial_cmp_spec(&b) == Some(core::cmp::Ordering::Equal)) <==> a == b,
        (a.partial_cmp_spec(&b) == Some(core::cmp::Ordering::Less)) <==> (b.partial_cmp_spec(&a)
            == Some(core::cmp::Ordering::Greater)),
        a.partial_cmp_spec(&b) == Some(core::cmp::Ordering::Less) && b.partial_cmp_spec(&c) == Some(
            core::cmp::Ordering::Less,
        ) ==> a.partial_cmp_spec(&c) == Some(core::cmp::Ordering::Less),
{
    lemma_score_key_injective(a, b);
}

} // verus!
