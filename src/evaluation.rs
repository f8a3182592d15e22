//! Scores of board states, the discount that propagates them up the search
//! tree, and the interface of a pluggable evaluator.
use vstd::prelude::*;
use crate::board::Board;
use crate::lock_data::LockResult;
use crate::moves::MovementMode;
use crate::piece::{Piece, SpawnRule};

verus! {

/// The immediate score of one board state, on two independent axes.
#[derive(Copy, Clone, Debug, PartialEq, Eq, Structural)]
pub struct Evaluation {
    pub aggressive: i32,
    pub defensive: i32,
}

/// A propagated score: a raw score plus the discounted score of the best
/// continuation.
#[derive(Copy, Clone, Debug, PartialEq, Eq, Structural)]
pub struct Eval {
    pub aggressive: i64,
    pub defensive: i64,
}

/// The search's tuning: the discount ratio applied to a subtree's score,
/// and the penalty for a piece kind that would leave no legal placement.
#[derive(Copy, Clone, Debug)]
pub struct SearchOptions {
    gamma_num: u32,
    gamma_den: u32,
    dead_penalty: i64,
}

/// How moves are generated and which parts of the queue are searched.
#[derive(Copy, Clone, Debug)]
pub struct Options {
    pub mode: MovementMode,
    pub spawn_rule: SpawnRule,
    pub use_hold: bool,
    pub speculate: bool,
}

/// A scoring function for board states, supplied by the user of the search.
pub trait Evaluator {
    /// The raw score of `board` after the lock `lock` of `piece`, reached in `move_time` ticks.
    fn evaluate(&self, lock: &LockResult, board: &Board, move_time: u32, piece: Piece) -> Evaluation;

    /// The discount and penalty the search uses.
    fn search_options(&self) -> SearchOptions;

    /// A single ranking value for a score, given the average column height.
    fn rank(&self, eval: Eval, height: i32) -> i64;
}

/// Rust's division rounding toward zero, for a positive divisor.
pub open spec fn trunc_div(a: int, d: int) -> int {
    if a >= 0 {
        a / d
    } else {
        -((-a) / d)
    }
}

/// The nearest `i64` to `v`.
pub open spec fn clamp64(v: int) -> i64 {
    if v < i64::MIN {
        i64::MIN
    } else if v > i64::MAX {
        i64::MAX
    } else {
        v as i64
    }
}

impl SearchOptions {
    #[verifier::type_invariant]
    spec fn positive_den(&self) -> bool {
        self.gamma_den > 0
    }

    /// The numerator of the discount ratio.
    pub closed spec fn num(&self) -> int {
        self.gamma_num as int
    }

    /// The denominator of the discount ratio; always positive.
    pub closed spec fn den(&self) -> int {
        self.gamma_den as int
    }

    /// The penalty for a piece kind with no legal placement.
    pub closed spec fn penalty(&self) -> int {
        self.dead_penalty as int
    }

    /// Options with discount `gamma_num / gamma_den`; `None` when the
    /// denominator is zero.
    pub fn new(gamma_num: u32, gamma_den: u32, dead_penalty: i64) -> (r: Option<SearchOptions>)
        ensures
            r is Some <==> gamma_den > 0,
            r is Some ==> r->0.num() == gamma_num && r->0.den() == gamma_den && r->0.penalty() == dead_penalty,
    {
        if gamma_den == 0 {
            None
        } else {
            Some(SearchOptions { gamma_num, gamma_den, dead_penalty })
        }
    }

    /// The discount ratio as (numerator, denominator).
    pub fn gamma(&self) -> (r: (u32, u32))
        ensures
            r.0 == self.num(),
            r.1 == self.den(),
            r.1 > 0,
    {
        proof {
            use_type_invariant(self);
        }
        (self.gamma_num, self.gamma_den)
    }

    /// The penalty for a piece kind with no legal placement.
    pub fn dead_penalty(&self) -> (r: i64)
        ensures
            r == self.penalty(),
    {
        self.dead_penalty
    }
}

/// `v * num / den`, rounded toward zero.
pub open spec fn discounted(v: int, o: SearchOptions) -> int {
    trunc_div(v * o.num(), o.den())
}

/// A node's score from its raw score and its subtree's score.
pub open spec fn node_value(raw: Evaluation, sub: Eval, o: SearchOptions) -> Eval {
    Eval {
        aggressive: clamp64(raw.aggressive + discounted(sub.aggressive as int, o)),
        defensive: clamp64(raw.defensive + discounted(sub.defensive as int, o)),
    }
}

/// A raw score as a propagated one.
pub open spec fn widen(e: Evaluation) -> Eval {
    Eval { aggressive: e.aggressive as i64, defensive: e.defensive as i64 }
}

/// `a / d` rounded toward zero, for a positive divisor.
fn div_toward_zero(a: i128, d: i128) -> (r: i128)
    requires
        d > 0,
        -0x1_0000_0000_0000_0000_0000_0000 < a < 0x1_0000_0000_0000_0000_0000_0000,
    ensures
        r == trunc_div(a as int, d as int),
        -0x1_0000_0000_0000_0000_0000_0000 < r < 0x1_0000_0000_0000_0000_0000_0000,
{
    if a >= 0 {
        proof {
            assert(a / d <= a) by (nonlinear_arith)
                requires
                    a >= 0,
                    d > 0,
            ;
        }
        a / d
    } else {
        let n = -a;
        proof {
            assert(n / d <= n) by (nonlinear_arith)
                requires
                    n >= 0,
                    d > 0,
            ;
        }
        -(n / d)
    }
}

/// The nearest `i64` to `v`.
pub fn clamp_to_i64(v: i128) -> (r: i64)
    ensures
        r == clamp64(v as int),
{
    if v < i64::MIN as i128 {
        i64::MIN
    } else if v > i64::MAX as i128 {
        i64::MAX
    } else {
        v as i64
    }
}

impl Eval {
    /// The score of a node with raw score `raw` whose best continuation
    /// scores `self`.
    pub fn discount_onto(self, raw: Evaluation, o: SearchOptions) -> (r: Eval)
        ensures
            r == node_value(raw, self, o),
    {
        let (num, den) = o.gamma();
        proof {
            assert(-0x1_0000_0000_0000_0000_0000_0000 < (self.aggressive as int) * (num as int) < 0x1_0000_0000_0000_0000_0000_0000) by (nonlinear_arith)
                requires
                    i64::MIN <= self.aggressive <= i64::MAX,
                    0 <= num <= u32::MAX,
            ;
            assert(-0x1_0000_0000_0000_0000_0000_0000 < (self.defensive as int) * (num as int) < 0x1_0000_0000_0000_0000_0000_0000) by (nonlinear_arith)
                requires
                    i64::MIN <= self.defensive <= i64::MAX,
                    0 <= num <= u32::MAX,
            ;
        }
        let a = div_toward_zero(self.aggressive as i128 * num as i128, den as i128);
        let d = div_toward_zero(self.defensive as i128 * num as i128, den as i128);
        Eval {
            aggressive: clamp_to_i64(raw.aggressive as i128 + a),
            defensive: clamp_to_i64(raw.defensive as i128 + d),
        }
    }
}

impl Evaluation {
    /// This raw score as a propagated one.
    pub fn widen(self) -> (r: Eval)
        ensures
            r == widen(self),
    {
        Eval { aggressive: self.aggressive as i64, defensive: self.defensive as i64 }
    }
}

} // verus!
