//! The speculative search tree: lazily expanded board states, scored by an
//! evaluator and explored with a rank-biased random policy.
use vstd::prelude::*;
use vstd::multiset::Multiset;
use rand::seq::SliceRandom;
use crate::board::{Board, bag_members, lock_outcome};
use crate::evaluation::{Eval, Evaluation, Evaluator, Options, SearchOptions, node_value, trunc_div, clamp64};
use crate::lock_data::LockResult;
use crate::moves::{Placement, find_moves, valid_lock, distinct_locks, lock_key, low_enough};
use crate::piece::{Piece, piece_index};

verus! {

/// One board state reached after zero or more committed placements.
pub struct Tree {
    pub board: Board,
    pub raw_eval: Evaluation,
    pub evaluation: Eval,
    pub depth: usize,
    pub child_nodes: usize,
    pub kind: Option<TreeKind>,
}

/// How a node has been expanded.
pub enum TreeKind {
    /// The next piece is known: one list of children.
    Known(Vec<Child>),
    /// The next piece is hidden: one optional list per piece kind, by index.
    Unknown(Vec<Option<Vec<Child>>>),
}

/// A candidate move from a node and the subtree after it.
pub struct Child {
    pub hold: bool,
    pub mv: Placement,
    pub lock: LockResult,
    pub tree: Tree,
}

/// What one expansion step reports.
pub struct ExpandResult {
    pub depth: usize,
    pub new_nodes: usize,
    pub is_death: bool,
}

/// The largest aggressive score among the children.
pub open spec fn best_aggressive(s: Seq<Child>) -> i64
    decreases s.len(),
{
    if s.len() <= 1 {
        s[0].tree.evaluation.aggressive
    } else {
        let rest = best_aggressive(s.drop_last());
        let last = s.last().tree.evaluation.aggressive;
        if last > rest { last } else { rest }
    }
}

/// The largest defensive score among the children.
pub open spec fn best_defensive(s: Seq<Child>) -> i64
    decreases s.len(),
{
    if s.len() <= 1 {
        s[0].tree.evaluation.defensive
    } else {
        let rest = best_defensive(s.drop_last());
        let last = s.last().tree.evaluation.defensive;
        if last > rest { last } else { rest }
    }
}

/// The componentwise maximum of the children's scores, if there are any.
pub open spec fn best_of(s: Seq<Child>) -> Option<Eval> {
    if s.len() == 0 {
        None
    } else {
        Some(Eval { aggressive: best_aggressive(s), defensive: best_defensive(s) })
    }
}

/// The componentwise maximum dominates every child's score on both axes,
/// and each axis attains the score of some child.
pub proof fn lemma_best_dominates(s: Seq<Child>)
    requires
        s.len() > 0,
    ensures
        forall|i: int| 0 <= i < s.len() ==> #[trigger] s[i].tree.evaluation.aggressive <= best_of(s)->0.aggressive
            && s[i].tree.evaluation.defensive <= best_of(s)->0.defensive,
        exists|i: int| 0 <= i < s.len() && #[trigger] s[i].tree.evaluation.aggressive == best_of(s)->0.aggressive,
        exists|i: int| 0 <= i < s.len() && #[trigger] s[i].tree.evaluation.defensive == best_of(s)->0.defensive,
    decreases s.len(),
{
    if s.len() > 1 {
        let r = s.drop_last();
        lemma_best_dominates(r);
        assert forall|i: int| 0 <= i < s.len() implies #[trigger] s[i].tree.evaluation.aggressive <= best_of(s)->0.aggressive
            && s[i].tree.evaluation.defensive <= best_of(s)->0.defensive by {
            if i < s.len() - 1 {
                assert(s[i] == r[i]);
            }
        }
        if s.last().tree.evaluation.aggressive <= best_aggressive(r) {
            let i = choose|i: int| 0 <= i < r.len() && #[trigger] r[i].tree.evaluation.aggressive == best_of(r)->0.aggressive;
            assert(s[i] == r[i]);
        } else {
            assert(s[s.len() - 1].tree.evaluation.aggressive == best_of(s)->0.aggressive);
        }
        if s.last().tree.evaluation.defensive <= best_defensive(r) {
            let i = choose|i: int| 0 <= i < r.len() && #[trigger] r[i].tree.evaluation.defensive == best_of(r)->0.defensive;
            assert(s[i] == r[i]);
        } else {
            assert(s[s.len() - 1].tree.evaluation.defensive == best_of(s)->0.defensive);
        }
    } else {
        assert(s[0].tree.evaluation.aggressive == best_of(s)->0.aggressive);
        assert(s[0].tree.evaluation.defensive == best_of(s)->0.defensive);
    }
}

/// The componentwise maximum of the children's scores, or `None` for no children.
pub fn best_eval(children: &Vec<Child>) -> (r: Option<Eval>)
    ensures
        r == best_of(children@),
{
    if children.len() == 0 {
        return None;
    }
    let mut a = children[0].tree.evaluation.aggressive;
    let mut d = children[0].tree.evaluation.defensive;
    let mut i: usize = 1;
    while i < children.len()
        invariant
            1 <= i <= children@.len(),
            a == best_aggressive(children@.subrange(0, i as int)),
            d == best_defensive(children@.subrange(0, i as int)),
        decreases children@.len() - i,
    {
        let e = children[i].tree.evaluation;
        proof {
            let s = children@.subrange(0, i as int + 1);
            assert(s.drop_last() =~= children@.subrange(0, i as int));
        }
        if e.aggressive > a {
            a = e.aggressive;
        }
        if e.defensive > d {
            d = e.defensive;
        }
        i += 1;
    }
    assert(children@.subrange(0, children@.len() as int) =~= children@);
    Some(Eval { aggressive: a, defensive: d })
}

/// The number of speculated slots that are considered: one per piece kind.
pub open spec fn slot_count(slots: Seq<Option<Vec<Child>>>) -> int {
    if slots.len() < 7 { slots.len() as int } else { 7 }
}

/// Whether a slot holds a non-empty list.
pub open spec fn slot_live(o: Option<Vec<Child>>) -> bool {
    o is Some && o->0@.len() > 0
}

/// Whether a slot holds an empty list: that kind leaves no legal placement.
pub open spec fn slot_dead(o: Option<Vec<Child>>) -> bool {
    o is Some && o->0@.len() == 0
}

/// Live slots, dead slots, and the sums of the live slots' best scores,
/// over the first `n` slots.
pub open spec fn slot_totals(slots: Seq<Option<Vec<Child>>>, n: int) -> (int, int, int, int)
    decreases n,
{
    if n <= 0 {
        (0, 0, 0, 0)
    } else {
        let t = slot_totals(slots, n - 1);
        let o = slots[n - 1];
        if slot_live(o) {
            let b = best_of(o->0@)->0;
            (t.0 + 1, t.1, t.2 + b.aggressive, t.3 + b.defensive)
        } else if slot_dead(o) {
            (t.0, t.1 + 1, t.2, t.3)
        } else {
            t
        }
    }
}

/// One axis of the speculative score: the average over live and dead kinds,
/// where each dead kind counts as the live average less the penalty.
pub open spec fn speculative_axis(sum: int, live: int, dead: int, penalty: int) -> i64 {
    let avg = if live > 0 { trunc_div(sum, live) } else { 0 };
    let total = sum + (avg - penalty) * dead;
    if live + dead > 0 { clamp64(trunc_div(total, live + dead)) } else { 0 }
}

/// The score of a speculated node.
pub open spec fn speculative_eval(slots: Seq<Option<Vec<Child>>>, o: SearchOptions) -> Eval {
    let t = slot_totals(slots, slot_count(slots));
    Eval {
        aggressive: speculative_axis(t.2, t.0, t.1, o.penalty()),
        defensive: speculative_axis(t.3, t.0, t.1, o.penalty()),
    }
}

/// The score of an expansion: the best child, or the speculative average.
pub open spec fn kind_eval(k: TreeKind, o: SearchOptions) -> Eval {
    match k {
        TreeKind::Known(c) => match best_of(c@) {
            Some(e) => e,
            None => Eval { aggressive: 0, defensive: 0 },
        },
        TreeKind::Unknown(slots) => speculative_eval(slots@, o),
    }
}

/// Whether no line of play survives in this expansion.
pub open spec fn kind_dead(k: TreeKind) -> bool {
    match k {
        TreeKind::Known(c) => c@.len() == 0,
        TreeKind::Unknown(slots) => forall|i: int| 0 <= i < slot_count(slots@) ==> !slot_live(#[trigger] slots@[i]),
    }
}

} // verus!

verus! {

/// The score of a speculated node: see `speculative_eval`.
pub fn speculation_evaluation(slots: &Vec<Option<Vec<Child>>>, o: SearchOptions) -> (r: Eval)
    ensures
        r == speculative_eval(slots@, o),
{
    let n = if slots.len() < 7 { slots.len() } else { 7 };
    let mut live: i128 = 0;
    let mut dead: i128 = 0;
    let mut sum_a: i128 = 0;
    let mut sum_d: i128 = 0;
    let mut i: usize = 0;
    while i < n
        invariant
            i <= n <= 7,
            n == slot_count(slots@),
            slot_totals(slots@, i as int) == (live as int, dead as int, sum_a as int, sum_d as int),
            0 <= live <= i,
            0 <= dead <= i,
            -0x8000_0000_0000_0000 * (live as int) <= sum_a <= 0x8000_0000_0000_0000 * (live as int),
            -0x8000_0000_0000_0000 * (live as int) <= sum_d <= 0x8000_0000_0000_0000 * (live as int),
        decreases n - i,
    {
        match &slots[i] {
            Some(children) => {
                match best_eval(children) {
                    Some(v) => {
                        live = live + 1;
                        sum_a = sum_a + v.aggressive as i128;
                        sum_d = sum_d + v.defensive as i128;
                    },
                    None => {
                        dead = dead + 1;
                    },
                }
            },
            None => {},
        }
        i += 1;
    }
    let p = o.dead_penalty() as i128;
    Eval { aggressive: speculative_axis_exec(sum_a, live, dead, p), defensive: speculative_axis_exec(sum_d, live, dead, p) }
}

fn speculative_axis_exec(sum: i128, live: i128, dead: i128, penalty: i128) -> (r: i64)
    requires
        0 <= live <= 7,
        0 <= dead <= 7,
        -0x8000_0000_0000_0000 * (live as int) <= sum <= 0x8000_0000_0000_0000 * (live as int),
        i64::MIN <= penalty <= i64::MAX,
    ensures
        r == speculative_axis(sum as int, live as int, dead as int, penalty as int),
{
    let avg: i128 = if live > 0 {
        let q = if sum >= 0 { sum / live } else { -((-sum) / live) };
        proof {
            if sum >= 0 {
                assert(sum / live <= sum) by (nonlinear_arith)
                    requires sum >= 0, live > 0;
                assert(sum / live <= 0x8000_0000_0000_0000) by (nonlinear_arith)
                    requires sum >= 0, live > 0, sum <= 0x8000_0000_0000_0000 * live;
            } else {
                let ns: int = -(sum as int);
                assert(ns / (live as int) <= 0x8000_0000_0000_0000) by (nonlinear_arith)
                    requires ns >= 0, live > 0, ns <= 0x8000_0000_0000_0000 * live;
                assert(ns / (live as int) >= 0) by (nonlinear_arith)
                    requires ns >= 0, live > 0;
            }
        }
        q
    } else {
        0
    };
    assert(-0x8000_0000_0000_0000 <= avg <= 0x8000_0000_0000_0000);
    let diff: i128 = avg - penalty;
    proof {
        assert(-0x1_0000_0000_0000_0000_00 <= (diff as int) * (dead as int) <= 0x1_0000_0000_0000_0000_00) by (nonlinear_arith)
            requires -0x1_0000_0000_0000_0000 <= diff <= 0x1_0000_0000_0000_0000, 0 <= dead <= 7;
    }
    let total: i128 = sum + diff * dead;
    let count: i128 = live + dead;
    if count > 0 {
        let q = if total >= 0 { total / count } else { -((-total) / count) };
        let r = if q < i64::MIN as i128 {
            i64::MIN
        } else if q > i64::MAX as i128 {
            i64::MAX
        } else {
            q as i64
        };
        r
    } else {
        0
    }
}

/// Relies on rand's `SliceRandom::choose` with `thread_rng`: for a
/// non-empty slice it returns one of its elements.
#[verifier::external_body]
fn choose_piece(pieces: &Vec<Piece>) -> (r: Piece)
    requires
        pieces@.len() > 0,
    ensures
        pieces@.contains(r),
{
    *pieces.choose(&mut rand::thread_rng()).unwrap()
}

/// The sum of the weights.
pub open spec fn total_weight(w: Seq<u128>) -> int
    decreases w.len(),
{
    if w.len() == 0 {
        0
    } else {
        total_weight(w.drop_last()) + w.last()
    }
}

/// Relies on rand's `WeightedIndex` sampled with `thread_rng`: built from
/// positive weights whose running sum fits in `u128` it is `Ok`, and a
/// sample is the index of one of the weights.
#[verifier::external_body]
fn weighted_index(weights: &Vec<u128>) -> (r: usize)
    requires
        weights@.len() > 0,
        forall|i: int| 0 <= i < weights@.len() ==> #[trigger] weights@[i] > 0,
        total_weight(weights@) <= u128::MAX,
    ensures
        r < weights@.len(),
{
    let dist = rand::distributions::WeightedIndex::new(weights.iter()).unwrap();
    rand::Rng::sample(&mut rand::thread_rng(), dist)
}

/// The exploration weight of the child at rank `i` whose ranking value is
/// `diff` above the lowest: `diff² / (i + 1) + 1`.
pub open spec fn exploration_weight(diff: int, i: int) -> int {
    diff * diff / (i + 1) + 1
}

/// The exploration weight of the child at rank `i`.
pub fn weight_of(diff: u64, i: usize) -> (r: u128)
    ensures
        r == exploration_weight(diff as int, i as int),
        r > 0,
{
    proof {
        assert((diff as int) * (diff as int) <= 0xFFFF_FFFF_FFFF_FFFE_0000_0000_0000_0001) by (nonlinear_arith)
            requires 0 <= diff <= u64::MAX;
    }
    let sq: u128 = diff as u128 * diff as u128;
    proof {
        assert(sq as int / (i as int + 1) <= sq as int) by (nonlinear_arith)
            requires sq >= 0, i >= 0;
    }
    sq / (i as u128 + 1) + 1
}

/// Picks an index at random, each with its weight as relative chance; the
/// first index when the weights' sum would not fit in `u128`.
pub fn pick_weighted(weights: &Vec<u128>) -> (r: usize)
    requires
        weights@.len() > 0,
        forall|i: int| 0 <= i < weights@.len() ==> #[trigger] weights@[i] > 0,
    ensures
        r < weights@.len(),
        total_weight(weights@) > u128::MAX ==> r == 0,
{
    let mut total: u128 = 0;
    let mut i: usize = 0;
    while i < weights.len()
        invariant
            i <= weights@.len(),
            total as int == total_weight(weights@.subrange(0, i as int)),
        decreases weights@.len() - i,
    {
        proof {
            assert(weights@.subrange(0, i as int + 1).drop_last() =~= weights@.subrange(0, i as int));
        }
        if total > u128::MAX - weights[i] {
            proof {
                lemma_total_weight_monotone(weights@, i as int + 1);
            }
            return 0;
        }
        total = total + weights[i];
        i += 1;
    }
    assert(weights@.subrange(0, weights@.len() as int) =~= weights@);
    weighted_index(weights)
}

proof fn lemma_total_weight_monotone(w: Seq<u128>, n: int)
    requires
        0 <= n <= w.len(),
    ensures
        total_weight(w.subrange(0, n)) <= total_weight(w),
    decreases w.len() - n,
{
    if n < w.len() {
        lemma_total_weight_monotone(w, n + 1);
        assert(w.subrange(0, n + 1).drop_last() =~= w.subrange(0, n));
    } else {
        assert(w.subrange(0, n) =~= w);
    }
}

} // verus!

verus! {

/// Sorts the children by descending rank, keeping the order of equal ranks;
/// the ranks are returned in the same order.
fn sort_by_rank(children: Vec<Child>, ranks: Vec<i64>) -> (r: (Vec<Child>, Vec<i64>))
    requires
        children@.len() == ranks@.len(),
    ensures
        r.0@.len() == children@.len(),
        r.1@.len() == children@.len(),
        r.0@.to_multiset() == children@.to_multiset(),
        forall|i: int, j: int| 0 <= i < j < r.1@.len() ==> #[trigger] r.1@[i] >= #[trigger] r.1@[j],
{
    let mut rem_c = children;
    let mut rem_r = ranks;
    let mut out_c: Vec<Child> = Vec::new();
    let mut out_r: Vec<i64> = Vec::new();
    proof {
        out_c@.to_multiset_ensures();
        assert(out_c@.to_multiset() =~= Multiset::empty());
        assert(children@.to_multiset() =~= out_c@.to_multiset().add(rem_c@.to_multiset()));
    }
    while rem_c.len() > 0
        invariant
            rem_c@.len() == rem_r@.len(),
            out_c@.len() == out_r@.len(),
            out_c@.len() + rem_c@.len() == children@.len(),
            children@.to_multiset() == out_c@.to_multiset().add(rem_c@.to_multiset()),
            forall|i: int, j: int| 0 <= i < j < out_r@.len() ==> #[trigger] out_r@[i] >= #[trigger] out_r@[j],
            forall|i: int, k: int| 0 <= i < out_r@.len() && 0 <= k < rem_r@.len() ==> #[trigger] out_r@[i] >= #[trigger] rem_r@[k],
        decreases rem_c@.len(),
    {
        let mut m: usize = 0;
        let mut j: usize = 1;
        while j < rem_r.len()
            invariant
                1 <= j <= rem_r@.len(),
                m < j,
                forall|k: int| 0 <= k < j ==> rem_r@[m as int] >= #[trigger] rem_r@[k],
            decreases rem_r@.len() - j,
        {
            if rem_r[j] > rem_r[m] {
                m = j;
            }
            j += 1;
        }
        let ghost old_rem_c = rem_c@;
        let ghost old_rem_r = rem_r@;
        let ghost old_out_c = out_c@;
        let c = rem_c.remove(m);
        let k = rem_r.remove(m);
        out_c.push(c);
        out_r.push(k);
        proof {
            old_rem_c.to_multiset_ensures();
            old_out_c.to_multiset_ensures();
            assert(rem_c@ == old_rem_c.remove(m as int));
            assert(old_rem_c.remove(m as int).to_multiset() =~= old_rem_c.to_multiset().remove(old_rem_c[m as int]));
            assert(old_out_c.push(c).to_multiset() =~= old_out_c.to_multiset().insert(c));
            assert(children@.to_multiset() =~= out_c@.to_multiset().add(rem_c@.to_multiset()));
            assert forall|i: int, kk: int| 0 <= i < out_r@.len() && 0 <= kk < rem_r@.len() implies #[trigger] out_r@[i] >= #[trigger] rem_r@[kk] by {
                if kk < m {
                    assert(rem_r@[kk] == old_rem_r[kk]);
                } else {
                    assert(rem_r@[kk] == old_rem_r[kk + 1]);
                }
            }
        }
    }
    proof {
        rem_c@.to_multiset_ensures();
        assert(rem_c@.to_multiset() =~= Multiset::empty());
        assert(children@.to_multiset() =~= out_c@.to_multiset());
    }
    (out_c, out_r)
}

/// Ranks the children (best first, by the evaluator's ranking of their
/// scores) and picks one at random, favouring the top ranks: see
/// `exploration_weight`.
fn select_child<E: Evaluator>(children: Vec<Child>, evaluator: &E) -> (r: (Vec<Child>, usize))
    requires
        children@.len() > 0,
    ensures
        r.0@.len() == children@.len(),
        r.0@.to_multiset() == children@.to_multiset(),
        r.1 < r.0@.len(),
{
    let mut ranks: Vec<i64> = Vec::new();
    let mut i: usize = 0;
    while i < children.len()
        invariant
            i <= children@.len(),
            ranks@.len() == i,
        decreases children@.len() - i,
    {
        let t = &children[i].tree;
        let h = t.board.height_sum() / 10;
        ranks.push(evaluator.rank(t.evaluation, h));
        i += 1;
    }
    let (sorted, ranks) = sort_by_rank(children, ranks);
    let n = ranks.len();
    let min = ranks[n - 1];
    let mut weights: Vec<u128> = Vec::new();
    let mut k: usize = 0;
    while k < n
        invariant
            k <= n,
            n == ranks@.len(),
            n > 0,
            min == ranks@[n - 1],
            forall|a: int, b: int| 0 <= a < b < ranks@.len() ==> #[trigger] ranks@[a] >= #[trigger] ranks@[b],
            weights@.len() == k,
            forall|j: int| 0 <= j < k ==> #[trigger] weights@[j] > 0,
        decreases n - k,
    {
        if k < n - 1 {
            assert(ranks@[k as int] >= ranks@[n - 1]);
        }
        let diff = (ranks[k] as i128 - min as i128) as u64;
        weights.push(weight_of(diff, k));
        k += 1;
    }
    let index = pick_weighted(&weights);
    (sorted, index)
}

} // verus!

verus! {

/// Whether a child is freshly made: unexpanded, with its raw score as its score,
/// and not a lock out.
pub open spec fn fresh_child(c: Child) -> bool {
    &&& c.tree.kind is None
    &&& c.tree.evaluation == crate::evaluation::widen(c.tree.raw_eval)
    &&& !c.lock.locked_out
}

/// No two children with the same hold choice rest in the same place.
pub open spec fn distinct_children(s: Seq<Child>, from: int) -> bool {
    forall|i: int, j: int|
        from <= i < s.len() && from <= j < s.len() && i != j && s[i].hold == s[j].hold ==> lock_key(
            #[trigger] s[i].mv.location,
        ) != lock_key(#[trigger] s[j].mv.location)
}

/// Whether locking the piece leaves it wholly above the visible field.
pub open spec fn locks_out(p: crate::piece::FallingPiece) -> bool {
    forall|i: int| 0 <= i < 4 ==> #[trigger] crate::piece::piece_cells(p)[i].1 >= 20
}

/// Pieces on the same cells both lock out or both do not.
proof fn lemma_key_locks_out(a: crate::piece::FallingPiece, b: crate::piece::FallingPiece)
    requires
        lock_key(a) == lock_key(b),
    ensures
        locks_out(a) == locks_out(b),
{
    let ca = crate::piece::piece_cells(a);
    let cb = crate::piece::piece_cells(b);
    crate::piece::lemma_offsets_small(a.kind, 0);
    crate::piece::lemma_offsets_small(b.kind, 0);
    if locks_out(b) {
        assert forall|i: int| 0 <= i < 4 implies #[trigger] ca[i].1 >= 20 by {
            assert(ca.to_set().contains(ca[i]));
            assert(cb.to_set().contains(ca[i]));
            let j = choose|j: int| 0 <= j < cb.len() && cb[j] == ca[i];
        }
    }
    if locks_out(a) {
        assert forall|i: int| 0 <= i < 4 implies #[trigger] cb[i].1 >= 20 by {
            assert(cb.to_set().contains(cb[i]));
            assert(ca.to_set().contains(cb[i]));
            let j = choose|j: int| 0 <= j < ca.len() && ca[j] == cb[i];
        }
    }
}

/// Whether revealing `piece` leaves no line of play in `t`: a speculated
/// node dies unless it holds a non-empty list for that piece, and a known
/// node dies when every child does.
pub open spec fn reveal_kills(t: Tree, piece: Piece) -> bool
    decreases t,
{
    match t.kind {
        None => false,
        Some(TreeKind::Unknown(slots)) => !(piece_index(piece) < slots@.len() && slots@[piece_index(piece)] is Some
            && slots@[piece_index(piece)]->0@.len() > 0),
        Some(TreeKind::Known(cs)) => forall|i: int| 0 <= i < cs@.len() ==> reveal_kills(#[trigger] cs@[i].tree, piece),
    }
}

/// The hold flag, placement and lock of the children among the first `n`
/// whose subtree survives revealing `piece`, in order.
pub open spec fn survivors(cs: Seq<Child>, piece: Piece, n: int) -> Seq<(bool, Placement, LockResult)>
    decreases n,
{
    if n <= 0 {
        Seq::empty()
    } else if reveal_kills(cs[n - 1].tree, piece) {
        survivors(cs, piece, n - 1)
    } else {
        survivors(cs, piece, n - 1).push((cs[n - 1].hold, cs[n - 1].mv, cs[n - 1].lock))
    }
}

proof fn lemma_survivors_empty(cs: Seq<Child>, piece: Piece, n: int)
    requires
        0 <= n <= cs.len(),
    ensures
        (survivors(cs, piece, n).len() == 0) == (forall|i: int| 0 <= i < n ==> reveal_kills(#[trigger] cs[i].tree, piece)),
    decreases n,
{
    if n > 0 {
        lemma_survivors_empty(cs, piece, n - 1);
    }
}

/// The hold flag, placement and lock of each child.
pub open spec fn moves_of(cs: Seq<Child>) -> Seq<(bool, Placement, LockResult)> {
    cs.map_values(|c: Child| (c.hold, c.mv, c.lock))
}

/// Whether every unexpanded node of `t` knows its next piece or, with hold
/// in use, its hold piece: expanding a node that knows neither is a misuse
/// of the queue.
pub open spec fn queue_consistent(t: Tree, opts: Options) -> bool
    decreases t,
{
    match t.kind {
        None => t.board.queue().len() > 0 || (opts.use_hold && t.board.held() is Some),
        Some(TreeKind::Known(cs)) => forall|i: int| 0 <= i < cs@.len() ==> queue_consistent(#[trigger] cs@[i].tree, opts),
        Some(TreeKind::Unknown(slots)) => forall|i: int, j: int|
            0 <= i < slots@.len() && slots@[i] is Some && 0 <= j < slots@[i]->0@.len() ==> queue_consistent(
                #[trigger] slots@[i]->0@[j].tree,
                opts,
            ),
    }
}

/// `queue_consistent` for every child in a list.
pub open spec fn list_consistent(cs: Seq<Child>, opts: Options) -> bool {
    forall|i: int| 0 <= i < cs.len() ==> queue_consistent(#[trigger] cs[i].tree, opts)
}

/// `queue_consistent` for every node below an expansion.
pub open spec fn kind_consistent(k: TreeKind, opts: Options) -> bool {
    match k {
        TreeKind::Known(cs) => list_consistent(cs@, opts),
        TreeKind::Unknown(slots) => forall|i: int| 0 <= i < slots@.len() && #[trigger] slots@[i] is Some ==> list_consistent(slots@[i]->0@, opts),
    }
}

/// The best known line of play below `t`: the placement and lock result of
/// each first child, as plain values.
pub open spec fn plan(t: Tree) -> Seq<StepView>
    decreases t,
{
    match t.kind {
        Some(TreeKind::Known(cs)) => if cs@.len() > 0 {
            seq![step_view(cs@[0].mv, cs@[0].lock)] + plan(cs@[0].tree)
        } else {
            Seq::empty()
        },
        _ => Seq::empty(),
    }
}

/// The plan of an expansion.
pub open spec fn kind_plan(k: TreeKind) -> Seq<StepView> {
    match k {
        TreeKind::Known(cs) => if cs@.len() > 0 {
            seq![step_view(cs@[0].mv, cs@[0].lock)] + plan(cs@[0].tree)
        } else {
            Seq::empty()
        },
        _ => Seq::empty(),
    }
}

/// What a plan step records.
pub open spec fn plan_entry(e: (Placement, LockResult)) -> StepView {
    step_view(e.0, e.1)
}

/// A placement (where the piece rests, the time, the inputs) and its lock
/// result (kind, back-to-back, perfect clear, combo, garbage, cleared rows,
/// lock out), as plain values.
pub type StepView = (
    (crate::piece::FallingPiece, u32, Seq<crate::piece::PieceMovement>),
    (crate::lock_data::PlacementKind, bool, bool, Option<u32>, u32, Seq<i32>, bool),
);

/// The plain values of a placement and its lock result.
pub open spec fn step_view(m: Placement, l: LockResult) -> StepView {
    (
        (m.location, m.inputs.time, crate::arrays::held_movements(m.inputs.movements)),
        (l.placement_kind, l.b2b, l.perfect_clear, l.combo, l.garbage_sent, crate::arrays::held_rows(l.cleared_lines), l.locked_out),
    )
}

/// Whether `after` is `before` followed by entries that record `p`.
pub open spec fn appended_plan(
    before: Seq<(Placement, LockResult)>,
    after: Seq<(Placement, LockResult)>,
    p: Seq<StepView>,
) -> bool {
    &&& after.len() == before.len() + p.len()
    &&& forall|i: int| 0 <= i < before.len() ==> #[trigger] after[i] == before[i]
    &&& forall|i: int| 0 <= i < p.len() ==> #[trigger] plan_entry(after[before.len() + i]) == p[i]
}

/// Whether `bp` is `b0` with `p` revealed at the back of its queue.
pub open spec fn added(bp: Board, b0: Board, p: Piece) -> bool {
    &&& bp.grid() == b0.grid()
    &&& bp.queue() == b0.queue().push(p)
    &&& bp.held() == b0.held()
    &&& bp.bag_view() == crate::board::bag_after(b0.bag_view(), p)
    &&& bp.combo_view() == b0.combo_view()
    &&& bp.b2b_view() == b0.b2b_view()
}

/// Whether `p` is a kind the hidden piece of `b` may still be.
pub open spec fn candidate(b: Board, p: Piece) -> bool {
    b.queue().len() <= 1 && bag_members(b.bag_view(), 7).contains(p)
}

/// Whether `list` is what the children of `b0` with `p` revealed are owed.
pub open spec fn slot_owed(b0: Board, p: Piece, opts: Options, list: Seq<Child>) -> bool {
    exists|bp: Board, b1: Board|
        #![trigger added(bp, b0, p), advanced(b1, bp)]
        added(bp, b0, p) && advanced(b1, bp) && children_owed(b1, bp.queue()[0], opts, list)
}

/// What one expansion step at a node guarantees, from its old state `old`
/// to its new state `new` with result `r`.
pub open spec fn expand_step(old: Tree, new: Tree, r: ExpandResult, opts: Options, o: SearchOptions) -> bool {
    &&& new.raw_eval == old.raw_eval
    &&& new.kind is Some ==> r.is_death == kind_dead(new.kind->0)
    &&& !r.is_death ==> eval_consistent(new, o)
    &&& old.kind is Some ==> new.kind is Some
    &&& old.kind is None && old.board.queue().len() > 0 && !(opts.use_hold && old.board.held() is None
        && old.board.queue().len() <= 1) ==> (r.is_death <==> new.kind is None) && (r.is_death ==> new
        == old) && (!r.is_death ==> r.depth == 1 && r.new_nodes == known_list(new.kind).len()) && (new.kind is Some
        ==> new.kind->0 is Known && new.depth == 1 && new.child_nodes == known_list(new.kind).len())
        && exists|b1: Board| #[trigger] advanced(b1, old.board) && children_owed(b1, old.board.queue()[0], opts, known_list(new.kind))
}

/// The depth one level above a step of depth `d`.
pub open spec fn grown(d: usize) -> usize {
    if d == usize::MAX { d } else { (d + 1) as usize }
}

/// What revealing `piece` guarantees of a node, from its old state `old` to
/// its new state `new`, when it reports `r`.
pub open spec fn reveal_step(old: Tree, new: Tree, piece: Piece, options: SearchOptions, r: bool) -> bool {
    &&& new.board.queue() == old.board.queue().push(piece)
    &&& new.board.bag_view() == crate::board::bag_after(old.board.bag_view(), piece)
    &&& new.board.grid() == old.board.grid()
    &&& new.board.held() == old.board.held()
    &&& new.board.combo_view() == old.board.combo_view()
    &&& new.board.b2b_view() == old.board.b2b_view()
    &&& new.raw_eval == old.raw_eval
    &&& r == (new.kind is Some && kind_dead(new.kind->0))
    &&& r == reveal_kills(old, piece)
    &&& old.kind is Some ==> new.kind is Some
    &&& !r ==> eval_consistent(new, options)
    &&& old.kind is None ==> new.kind is None
    &&& match old.kind {
        Some(TreeKind::Unknown(slots)) => (piece_index(piece) < slots@.len() && slots@[piece_index(piece)] is Some)
            ==> new.kind == Some(TreeKind::Known(slots@[piece_index(piece)]->0)),
        _ => true,
    }
}

/// The children of a known expansion; empty for anything else.
pub open spec fn known_list(k: Option<TreeKind>) -> Seq<Child> {
    match k {
        Some(TreeKind::Known(c)) => c@,
        _ => Seq::empty(),
    }
}

/// Whether `b1` is `b0` with the front of its queue taken off.
pub open spec fn advanced(b1: Board, b0: Board) -> bool {
    &&& b0.queue().len() > 0
    &&& b1.grid() == b0.grid()
    &&& b1.queue() == b0.queue().subrange(1, b0.queue().len() as int)
    &&& b1.held() == b0.held()
    &&& b1.bag_view() == b0.bag_view()
    &&& b1.combo_view() == b0.combo_view()
    &&& b1.b2b_view() == b0.b2b_view()
}

/// Whether `q` is where a piece spawned at `s` rests after a straight drop,
/// in mode `mode` (where 20G has already dropped it once at spawn).
pub open spec fn straight_drop(b: Board, s: crate::piece::FallingPiece, mode: crate::moves::MovementMode, q: crate::piece::FallingPiece) -> bool {
    if mode == crate::moves::MovementMode::TwentyG {
        exists|q0: crate::piece::FallingPiece, f0: bool, f: bool|
            #![trigger crate::piece::drop_outcome(b, s, q0, f0), crate::piece::drop_outcome(b, q0, q, f)]
            crate::piece::drop_outcome(b, s, q0, f0) && crate::piece::drop_outcome(b, q0, q, f)
    } else {
        exists|f: bool| #[trigger] crate::piece::drop_outcome(b, s, q, f)
    }
}

/// What the children of a node are owed, given the board `b1` left after
/// the next piece `p` is taken from the queue.
pub open spec fn children_owed(b1: Board, p: Piece, opts: Options, r: Seq<Child>) -> bool {
    &&& (opts.spawn_rule.spawn_spec(p, b1) is None ==> r.len() == 0)
    &&& forall|i: int| 0 <= i < r.len() && !(#[trigger] r[i]).hold ==> valid_lock(b1, r[i].mv) && lock_outcome(
        b1,
        r[i].mv.location,
        r[i].tree.board,
        r[i].lock,
    )
    &&& forall|q: crate::piece::FallingPiece|
        opts.spawn_rule.spawn_spec(p, b1) is Some && #[trigger] straight_drop(b1, opts.spawn_rule.spawn_spec(p, b1)->0, opts.mode, q)
            && low_enough(q) && !locks_out(q) ==> r.len() > 0
    &&& opts.spawn_rule.spawn_spec(p, b1) is Some ==> exists|found: Seq<Placement>, n: int|
        #![trigger crate::moves::moves_contract(b1, opts.spawn_rule.spawn_spec(p, b1)->0, opts.mode, found), nonhold_from(r, found, n)]
        crate::moves::moves_contract(b1, opts.spawn_rule.spawn_spec(p, b1)->0, opts.mode, found) && nonhold_from(r, found, n)
}

/// The placements among the first `n` of `ms` that do not lock out, in order.
pub open spec fn unlocked(ms: Seq<Placement>, n: int) -> Seq<Placement>
    decreases n,
{
    if n <= 0 {
        Seq::empty()
    } else if locks_out(ms[n - 1].location) {
        unlocked(ms, n - 1)
    } else {
        unlocked(ms, n - 1).push(ms[n - 1])
    }
}

/// The placements of the children from index `from` on.
pub open spec fn child_moves(cs: Seq<Child>, from: int) -> Seq<Placement> {
    cs.subrange(from, cs.len() as int).map_values(|c: Child| c.mv)
}

/// Whether the first `n` children of `r` are the non-hold ones, and their
/// placements are those of `found` that do not lock out, in order.
pub open spec fn nonhold_from(r: Seq<Child>, found: Seq<Placement>, n: int) -> bool {
    &&& 0 <= n <= r.len()
    &&& forall|i: int| 0 <= i < n ==> !(#[trigger] r[i]).hold
    &&& forall|i: int| n <= i < r.len() ==> (#[trigger] r[i]).hold
    &&& r.subrange(0, n).map_values(|c: Child| c.mv) == unlocked(found, found.len() as int)
}

/// Adds a child for each placement of `piece` that does not lock out.
fn add_children<E: Evaluator>(
    board: &Board,
    moves: Vec<Placement>,
    piece: Piece,
    hold: bool,
    children: &mut Vec<Child>,
    evaluator: &E,
)
    requires
        forall|i: int| 0 <= i < moves@.len() ==> valid_lock(*board, #[trigger] moves@[i]),
        forall|i: int| 0 <= i < old(children)@.len() ==> fresh_child(#[trigger] old(children)@[i]),
        distinct_locks(moves@),
    ensures
        distinct_children(final(children)@, old(children)@.len() as int),
        forall|i: int| 0 <= i < final(children)@.len() ==> fresh_child(#[trigger] final(children)@[i]),
        forall|i: int| 0 <= i < old(children)@.len() ==> #[trigger] final(children)@[i] == old(children)@[i],
        final(children)@.len() >= old(children)@.len(),
        forall|i: int| old(children)@.len() <= i < final(children)@.len() ==> #[trigger] final(children)@[i].hold == hold,
        forall|i: int| old(children)@.len() <= i < final(children)@.len() ==> valid_lock(*board, #[trigger] final(children)@[i].mv)
            && lock_outcome(*board, final(children)@[i].mv.location, final(children)@[i].tree.board, final(children)@[i].lock),
        forall|k: int| 0 <= k < moves@.len() && !locks_out(#[trigger] moves@[k].location) ==> exists|i: int|
            old(children)@.len() <= i < final(children)@.len() && #[trigger] final(children)@[i].mv == moves@[k],
        child_moves(final(children)@, old(children)@.len() as int) == unlocked(moves@, moves@.len() as int),
{
    let ghost orig = moves@;
    let mut moves = moves;
    let ghost start = children@;
    let ghost mut consumed: int = 0;
    while moves.len() > 0
        invariant
            forall|i: int| 0 <= i < moves@.len() ==> valid_lock(*board, #[trigger] moves@[i]),
            forall|i: int| 0 <= i < children@.len() ==> fresh_child(#[trigger] children@[i]),
            forall|i: int| 0 <= i < start.len() ==> #[trigger] children@[i] == start[i],
            children@.len() >= start.len(),
            forall|i: int| start.len() <= i < children@.len() ==> #[trigger] children@[i].hold == hold,
            distinct_locks(moves@),
            distinct_children(children@, start.len() as int),
            forall|i: int, k: int| start.len() <= i < children@.len() && 0 <= k < moves@.len() ==> lock_key(
                #[trigger] children@[i].mv.location,
            ) != lock_key(#[trigger] moves@[k].location),
            0 <= consumed <= orig.len(),
            moves@ == orig.subrange(consumed, orig.len() as int),
            forall|i: int| start.len() <= i < children@.len() ==> valid_lock(*board, #[trigger] children@[i].mv)
                && lock_outcome(*board, children@[i].mv.location, children@[i].tree.board, children@[i].lock),
            forall|k: int| 0 <= k < consumed && !locks_out(#[trigger] orig[k].location) ==> exists|i: int|
                start.len() <= i < children@.len() && #[trigger] children@[i].mv == orig[k],
            child_moves(children@, start.len() as int) == unlocked(orig, consumed),
        decreases moves@.len(),
    {
        let ghost before = moves@;
        let ghost kids = children@;
        let mv = moves.remove(0);
        proof {
            assert(valid_lock(*board, before[0]));
            assert forall|i: int| 0 <= i < moves@.len() implies valid_lock(*board, #[trigger] moves@[i]) by {
                assert(moves@[i] == before[i + 1]);
            }
            assert forall|i: int, j: int| 0 <= i < moves@.len() && 0 <= j < moves@.len() && i != j implies lock_key(
                #[trigger] moves@[i].location,
            ) != lock_key(#[trigger] moves@[j].location) by {
                assert(moves@[i] == before[i + 1]);
                assert(moves@[j] == before[j + 1]);
            }
            assert forall|i: int, k: int| start.len() <= i < kids.len() && 0 <= k < moves@.len() implies lock_key(
                #[trigger] kids[i].mv.location,
            ) != lock_key(#[trigger] moves@[k].location) by {
                assert(moves@[k] == before[k + 1]);
            }
            assert forall|k: int| 0 <= k < moves@.len() implies lock_key(mv.location) != lock_key(
                #[trigger] moves@[k].location,
            ) by {
                assert(moves@[k] == before[k + 1]);
                assert(before[0] == mv);
            }
            assert forall|i: int| start.len() <= i < kids.len() implies lock_key(#[trigger] kids[i].mv.location)
                != lock_key(mv.location) by {
                assert(before[0] == mv);
            }
        }
        let mut after = board.duplicate();
        proof {
            lemma_same_board_obstructs(*board, after, mv.location);
        }
        let ghost before_lock = after;
        let lock = after.lock_piece(mv.location);
        proof {
            assert(lock_outcome(*board, mv.location, after, lock));
            assert(lock.locked_out == locks_out(mv.location));
            assert(mv == orig[consumed]);
            assert forall|k: int| 0 <= k < consumed && !locks_out(#[trigger] orig[k].location) implies exists|i: int|
                start.len() <= i < children@.len() && #[trigger] children@[i].mv == orig[k] by {
            }
            consumed = consumed + 1;
            assert(moves@ =~= orig.subrange(consumed, orig.len() as int));
            if lock.locked_out {
                assert(unlocked(orig, consumed) == unlocked(orig, consumed - 1));
            }
        }
        if !lock.locked_out {
            let time = mv.inputs.time;
            let ghost loc = mv.location;
            let ghost the_mv = mv;
            let tree = Tree::new(after, &lock, time, piece, evaluator);
            children.push(Child { hold, mv, lock, tree });
            proof {
                let n = kids.len() as int;
                assert(children@[n].mv == the_mv);
                assert(child_moves(children@, start.len() as int) =~= child_moves(kids, start.len() as int).push(the_mv));
                assert forall|k: int| 0 <= k < consumed && !locks_out(#[trigger] orig[k].location) implies exists|i: int|
                    start.len() <= i < children@.len() && #[trigger] children@[i].mv == orig[k] by {
                    if k == consumed - 1 {
                        assert(children@[n].mv == orig[k]);
                    } else {
                        let i = choose|i: int| start.len() <= i < kids.len() && #[trigger] kids[i].mv == orig[k];
                        assert(children@[i] == kids[i]);
                    }
                }
                assert forall|i: int| start.len() <= i < children@.len() implies valid_lock(*board, #[trigger] children@[i].mv)
                    && lock_outcome(*board, children@[i].mv.location, children@[i].tree.board, children@[i].lock) by {
                    if i < n {
                        assert(children@[i] == kids[i]);
                    }
                }
                assert(children@[n].mv.location == loc);
                assert forall|i: int, j: int|
                    start.len() <= i < children@.len() && start.len() <= j < children@.len() && i != j
                        && children@[i].hold == children@[j].hold implies lock_key(#[trigger] children@[i].mv.location)
                    != lock_key(#[trigger] children@[j].mv.location) by {
                    if i < n {
                        assert(children@[i] == kids[i]);
                    } else {
                        assert(children@[i].mv.location == loc);
                    }
                    if j < n {
                        assert(children@[j] == kids[j]);
                    } else {
                        assert(children@[j].mv.location == loc);
                    }
                    if i == n {
                        assert(lock_key(kids[j].mv.location) != lock_key(loc));
                    }
                    if j == n {
                        assert(lock_key(kids[i].mv.location) != lock_key(loc));
                    }
                }
                assert forall|i: int, k: int| start.len() <= i < children@.len() && 0 <= k < moves@.len() implies lock_key(
                    #[trigger] children@[i].mv.location,
                ) != lock_key(#[trigger] moves@[k].location) by {
                    if i < n {
                        assert(children@[i] == kids[i]);
                    } else {
                        assert(children@[i].mv.location == loc);
                        assert(lock_key(loc) != lock_key(moves@[k].location));
                    }
                }
            }
        }
    }
}

/// Boards that agree on their grid agree on whether a piece is obstructed.
proof fn lemma_same_board_obstructs(a: Board, b: Board, p: crate::piece::FallingPiece)
    requires
        a.same_as(b),
    ensures
        crate::piece::obstructs(a, p) == crate::piece::obstructs(b, p),
{
    assert forall|c: (int, int)| #[trigger] crate::board::occupied_cell(a, c) == crate::board::occupied_cell(b, c) by {
        assert(a.grid() == b.grid());
    }
    let cs = crate::piece::piece_cells(p);
    if crate::piece::obstructs(a, p) {
        let i = choose|i: int| 0 <= i < cs.len() && #[trigger] crate::board::occupied_cell(a, cs[i]);
        assert(crate::board::occupied_cell(b, cs[i]));
    }
    if crate::piece::obstructs(b, p) {
        let i = choose|i: int| 0 <= i < cs.len() && #[trigger] crate::board::occupied_cell(b, cs[i]);
        assert(crate::board::occupied_cell(a, cs[i]));
    }
}

/// The children of a node whose next piece (and hold piece, if hold is
/// used) is known: one per placement of the next piece and, with hold, one
/// per placement of the piece that hold brings in.
fn new_children<E: Evaluator>(board: Board, opts: Options, evaluator: &E) -> (r: Vec<Child>)
    ensures
        forall|i: int| 0 <= i < r@.len() ==> fresh_child(#[trigger] r@[i]),
        distinct_children(r@, 0),
        board.queue().len() == 0 ==> r@.len() == 0,
        board.queue().len() > 0 ==> exists|b1: Board| #[trigger] advanced(b1, board) && children_owed(b1, board.queue()[0], opts, r@),
{
    let ghost b0 = board;
    let mut board = board;
    let mut children: Vec<Child> = Vec::new();
    let next = match board.advance_queue() {
        Some(p) => p,
        None => return children,
    };
    proof {
        assert(advanced(board, b0));
    }
    let spawned = match opts.spawn_rule.spawn(next, &board) {
        Some(s) => s,
        None => {
            assert(children_owed(board, b0.queue()[0], opts, children@));
            return children;
        },
    };
    let moves = find_moves(&board, spawned, opts.mode);
    let ghost found = moves@;
    add_children(&board, moves, next, false, &mut children, evaluator);
    let ghost first = children@;
    assert(forall|i: int| 0 <= i < first.len() ==> !(#[trigger] first[i]).hold);
    proof {
        assert(first.subrange(0, first.len() as int).map_values(|c: Child| c.mv) =~= child_moves(first, 0));
        assert(nonhold_from(first, found, first.len() as int));
    }
    proof {
        assert forall|q: crate::piece::FallingPiece|
            opts.spawn_rule.spawn_spec(next, board) is Some && #[trigger] straight_drop(board, opts.spawn_rule.spawn_spec(next, board)->0, opts.mode, q)
                && low_enough(q) && !locks_out(q) implies first.len() > 0 by {
            let ghost n: Seq<crate::piece::PieceMovement> = if opts.mode == crate::moves::MovementMode::TwentyG {
                seq![crate::piece::PieceMovement::SonicDrop]
            } else {
                Seq::empty()
            };
            if opts.mode == crate::moves::MovementMode::TwentyG {
                let (q0, f0, f) = choose|q0: crate::piece::FallingPiece, f0: bool, f: bool|
                    crate::piece::drop_outcome(board, spawned, q0, f0) && crate::piece::drop_outcome(board, q0, q, f);
                let (p0, g0, p1, g1) = choose|p0: crate::piece::FallingPiece, g0: bool, p1: crate::piece::FallingPiece, g1: bool|
                    crate::piece::drop_outcome(board, spawned, p0, g0) && crate::piece::drop_outcome(board, p0, p1, g1)
                        && crate::moves::straight_recorded(found, p1, n);
                crate::piece::lemma_drop_unique(board, spawned, q0, f0, p0, g0);
                crate::piece::lemma_drop_unique(board, q0, q, f, p1, g1);
            } else {
                let f = choose|f: bool| crate::piece::drop_outcome(board, spawned, q, f);
                let (p1, g1) = choose|p1: crate::piece::FallingPiece, g1: bool|
                    crate::piece::drop_outcome(board, spawned, p1, g1) && crate::moves::straight_recorded(found, p1, n);
                crate::piece::lemma_drop_unique(board, spawned, q, f, p1, g1);
            }
            let i = choose|i: int| 0 <= i < found.len() && lock_key(#[trigger] found[i].location) == lock_key(q)
                && found[i].inputs.time == 0 && crate::arrays::held_movements(found[i].inputs.movements) == n;
            lemma_key_locks_out(found[i].location, q);
            assert(!locks_out(found[i].location));
            let j = choose|j: int| 0 <= j < first.len() && #[trigger] first[j].mv == found[i];
        }
    }
    if opts.use_hold {
        let mut held_board = board.duplicate();
        let hold = match held_board.hold(next) {
            Some(h) => h,
            None => match held_board.advance_queue() {
                Some(p) => p,
                None => return children,
            },
        };
        if hold != next {
            if let Some(spawned) = opts.spawn_rule.spawn(hold, &held_board) {
                let moves = find_moves(&held_board, spawned, opts.mode);
                add_children(&held_board, moves, hold, true, &mut children, evaluator);
                proof {
                    assert forall|i: int, j: int|
                        0 <= i < children@.len() && 0 <= j < children@.len() && i != j && children@[i].hold
                            == children@[j].hold implies lock_key(#[trigger] children@[i].mv.location) != lock_key(
                        #[trigger] children@[j].mv.location,
                    ) by {
                        if i < first.len() {
                            assert(children@[i] == first[i]);
                        }
                        if j < first.len() {
                            assert(children@[j] == first[j]);
                        }
                    }
                }
            }
        }
    }
    proof {
        assert(children@.subrange(0, first.len() as int) =~= first);
        assert(first.subrange(0, first.len() as int) =~= first);
        assert(children@.subrange(0, first.len() as int).map_values(|c: Child| c.mv) == first.subrange(0, first.len() as int).map_values(|c: Child| c.mv));
        assert forall|i: int| 0 <= i < first.len() implies !(#[trigger] children@[i]).hold by {
            assert(children@[i] == first[i]);
        }
        assert forall|i: int| first.len() <= i < children@.len() implies (#[trigger] children@[i]).hold by {}
        assert(nonhold_from(children@, found, first.len() as int));
        assert(crate::moves::moves_contract(board, spawned, opts.mode, found));
    }
    children
}

/// Whether no slot holds a non-empty list.
fn all_slots_dead(slots: &Vec<Option<Vec<Child>>>) -> (r: bool)
    ensures
        r == forall|k: int| 0 <= k < slot_count(slots@) ==> !slot_live(#[trigger] slots@[k]),
{
    let n = if slots.len() < 7 { slots.len() } else { 7 };
    let mut i: usize = 0;
    while i < n
        invariant
            i <= n,
            n == slot_count(slots@),
            forall|k: int| 0 <= k < i ==> !slot_live(#[trigger] slots@[k]),
        decreases n - i,
    {
        match &slots[i] {
            Some(c) => {
                if c.len() > 0 {
                    assert(slot_live(slots@[i as int]));
                    return false;
                }
            },
            None => {},
        }
        i += 1;
    }
    true
}

impl TreeKind {
    /// The first child of a known, non-empty expansion, or the expansion itself.
    pub fn into_best_child(self) -> (r: Result<Child, TreeKind>)
        ensures
            match self {
                TreeKind::Known(c) => if c@.len() > 0 {
                    r == Ok::<Child, TreeKind>(c@[0])
                } else {
                    r == Err::<Child, TreeKind>(self)
                },
                _ => r == Err::<Child, TreeKind>(self),
            },
    {
        match self {
            TreeKind::Known(mut children) => {
                if children.len() == 0 {
                    Err(TreeKind::Known(children))
                } else {
                    Ok(children.remove(0))
                }
            },
            TreeKind::Unknown(slots) => Err(TreeKind::Unknown(slots)),
        }
    }

    /// Appends the best known line of play, following first children.
    pub fn get_plan(&self, into: &mut Vec<(Placement, LockResult)>)
        ensures
            appended_plan(old(into)@, final(into)@, kind_plan(*self)),
        decreases *self,
    {
        match self {
            TreeKind::Known(children) => {
                if children.len() > 0 {
                    let first = &children[0];
                    into.push((first.mv.duplicate(), first.lock.duplicate()));
                    let ghost mid = into@;
                    proof {
                        assert(decreases_to!(*self => children));
                        assert(decreases_to!(children => children@[0]));
                        assert(decreases_to!(children@[0] => children@[0].tree));
                    }
                    first.tree.get_plan(into);
                    proof {
                        let before = old(into)@;
                        let p = kind_plan(*self);
                        assert(p == seq![step_view(children@[0].mv, children@[0].lock)] + plan(children@[0].tree));
                        assert forall|i: int| 0 <= i < before.len() implies #[trigger] into@[i] == before[i] by {
                            assert(into@[i] == mid[i]);
                        }
                        assert forall|i: int| 0 <= i < p.len() implies #[trigger] plan_entry(into@[before.len() + i]) == p[i] by {
                            if i == 0 {
                                assert(into@[before.len() as int] == mid[before.len() as int]);
                            } else {
                                assert(plan_entry(into@[mid.len() + (i - 1)]) == plan(children@[0].tree)[i - 1]);
                            }
                        }
                    }
                } else {
                    assert(into@ =~= old(into)@);
                }
            },
            _ => {
                assert(into@ =~= old(into)@);
            },
        }
    }

    /// The children of a known expansion: where each leaves its piece, and its score.
    pub fn get_moves_and_evaluations(&self) -> (r: Vec<(crate::piece::FallingPiece, Eval)>)
        ensures
            match *self {
                TreeKind::Known(c) => r@.len() == c@.len() && forall|i: int|
                    0 <= i < c@.len() ==> #[trigger] r@[i] == (c@[i].mv.location, c@[i].tree.evaluation),
                _ => r@.len() == 0,
            },
    {
        let mut out: Vec<(crate::piece::FallingPiece, Eval)> = Vec::new();
        match self {
            TreeKind::Known(children) => {
                let mut i: usize = 0;
                while i < children.len()
                    invariant
                        i <= children@.len(),
                        out@.len() == i,
                        forall|k: int| 0 <= k < i ==> #[trigger] out@[k] == (children@[k].mv.location, children@[k].tree.evaluation),
                    decreases children@.len() - i,
                {
                    out.push((children[i].mv.location, children[i].tree.evaluation));
                    i += 1;
                }
            },
            _ => {},
        }
        out
    }

    /// The score of this expansion: the componentwise best child, or the
    /// speculative average.
    pub fn evaluation(&self, o: SearchOptions) -> (r: Eval)
        ensures
            r == kind_eval(*self, o),
    {
        match self {
            TreeKind::Known(children) => match best_eval(children) {
                Some(e) => e,
                None => Eval { aggressive: 0, defensive: 0 },
            },
            TreeKind::Unknown(slots) => speculation_evaluation(slots, o),
        }
    }

    /// Whether no line of play survives in this expansion.
    pub fn is_dead(&self) -> (r: bool)
        ensures
            r == kind_dead(*self),
    {
        match self {
            TreeKind::Known(children) => children.len() == 0,
            TreeKind::Unknown(slots) => all_slots_dead(slots),
        }
    }
}

} // verus!

verus! {

/// Whether a node's score is its raw score plus the discounted score of its
/// expansion.
pub open spec fn eval_consistent(t: Tree, o: SearchOptions) -> bool {
    t.kind is Some ==> t.evaluation == node_value(t.raw_eval, kind_eval(t.kind->0, o), o)
}

fn grow(depth: usize) -> (r: usize)
    ensures
        r == if depth == usize::MAX { depth } else { (depth + 1) as usize },
{
    depth.saturating_add(1)
}

impl Tree {
    /// The root of a search from `board`, with zero scores.
    pub fn starting_board(board: Board) -> (r: Tree)
        ensures
            r.board == board,
            r.raw_eval == (Evaluation { aggressive: 0, defensive: 0 }),
            r.evaluation == (Eval { aggressive: 0, defensive: 0 }),
            r.depth == 0,
            r.child_nodes == 0,
            r.kind is None,
    {
        Tree {
            board,
            raw_eval: Evaluation { aggressive: 0, defensive: 0 },
            evaluation: Eval { aggressive: 0, defensive: 0 },
            depth: 0,
            child_nodes: 0,
            kind: None,
        }
    }

    /// An unexpanded node for `board`, reached by the lock `lock` of
    /// `piece` in `move_time` ticks, scored by the evaluator.
    pub fn new<E: Evaluator>(board: Board, lock: &LockResult, move_time: u32, piece: Piece, evaluator: &E) -> (r: Tree)
        ensures
            r.board == board,
            r.evaluation == crate::evaluation::widen(r.raw_eval),
            r.depth == 0,
            r.child_nodes == 0,
            r.kind is None,
    {
        let raw_eval = evaluator.evaluate(lock, &board, move_time, piece);
        Tree { raw_eval, board, evaluation: raw_eval.widen(), depth: 0, child_nodes: 0, kind: None }
    }

    /// The first child of a known, non-empty root, or the tree itself.
    pub fn into_best_child(self) -> (r: Result<Child, Tree>)
        ensures
            match self.kind {
                Some(TreeKind::Known(c)) => if c@.len() > 0 {
                    r == Ok::<Child, Tree>(c@[0])
                } else {
                    r == Err::<Child, Tree>(self)
                },
                _ => r == Err::<Child, Tree>(self),
            },
    {
        let mut t = self;
        match t.kind {
            None => Err(t),
            Some(tk) => match tk.into_best_child() {
                Ok(c) => Ok(c),
                Err(tk) => {
                    t.kind = Some(tk);
                    Err(t)
                },
            },
        }
    }

    /// Appends the best known line of play, following first children.
    pub fn get_plan(&self, into: &mut Vec<(Placement, LockResult)>)
        ensures
            appended_plan(old(into)@, final(into)@, plan(*self)),
        decreases *self,
    {
        match &self.kind {
            Some(tk) => {
                proof {
                    assert(decreases_to!(*self => self.kind));
                    assert(decreases_to!(self.kind => self.kind->0));
                }
                tk.get_plan(into);
            },
            None => {},
        }
    }

    /// The root's children: where each leaves its piece, and its score.
    pub fn get_moves_and_evaluations(&self) -> (r: Vec<(crate::piece::FallingPiece, Eval)>)
        ensures
            match self.kind {
                Some(TreeKind::Known(c)) => r@.len() == c@.len() && forall|i: int|
                    0 <= i < c@.len() ==> #[trigger] r@[i] == (c@[i].mv.location, c@[i].tree.evaluation),
                _ => r@.len() == 0,
            },
    {
        match &self.kind {
            Some(tk) => tk.get_moves_and_evaluations(),
            None => Vec::new(),
        }
    }
}

} // verus!

verus! {

impl TreeKind {
    /// Takes in the revealed next piece. A speculated expansion becomes the
    /// known list precomputed for that piece, and every other list is
    /// dropped; a known one passes the piece on to each child and drops the
    /// children that die of it. Returns the new expansion and whether it is dead.
    pub fn add_next_piece(k: TreeKind, piece: Piece, o: SearchOptions) -> (r: (TreeKind, bool))
        ensures
            r.1 == kind_dead(r.0),
            r.0 is Known,
            match k {
                TreeKind::Unknown(slots) => {
                    &&& (piece_index(piece) < slots@.len() && slots@[piece_index(piece)] is Some) ==> r.0
                        == TreeKind::Known(slots@[piece_index(piece)]->0)
                    &&& !(piece_index(piece) < slots@.len() && slots@[piece_index(piece)] is Some) ==> r.1
                },
                TreeKind::Known(c) => {
                    &&& moves_of(r.0->Known_0@) == survivors(c@, piece, c@.len() as int)
                    &&& r.1 == forall|i: int| 0 <= i < c@.len() ==> reveal_kills(#[trigger] c@[i].tree, piece)
                },
            },
        decreases k,
    {
        match k {
            TreeKind::Known(children) => {
                let ghost orig = children;
                let mut rest = children;
                let mut kept: Vec<Child> = Vec::new();
                let mut consumed: usize = 0;
                let total = rest.len();
                while rest.len() > 0
                    invariant
                        total == orig@.len(),
                        consumed <= orig@.len(),
                        consumed + rest@.len() == orig@.len(),
                        rest@ == orig@.subrange(consumed as int, orig@.len() as int),
                        kept@.len() <= consumed,
                        decreases_to!(k => orig),
                        moves_of(kept@) == survivors(orig@, piece, consumed as int),
                    decreases rest@.len(),
                {
                    let ghost kept_before = kept@;
                    let mut c = rest.remove(0);
                    proof {
                        assert(c == orig@[consumed as int]);
                        assert(decreases_to!(orig => orig@[consumed as int]));
                        assert(decreases_to!(c => c.tree));
                    }
                    let ghost c0 = c;
                    consumed += 1;
                    if !c.tree.add_next_piece(piece, o) {
                        kept.push(c);
                        assert(moves_of(kept@) =~= moves_of(kept_before).push((c0.hold, c0.mv, c0.lock)));
                    }
                    assert(rest@ =~= orig@.subrange(consumed as int, orig@.len() as int));
                }
                let dead = kept.len() == 0;
                proof {
                    lemma_survivors_empty(orig@, piece, orig@.len() as int);
                    assert(moves_of(kept@).len() == kept@.len());
                }
                (TreeKind::Known(kept), dead)
            },
            TreeKind::Unknown(slots) => {
                let mut slots = slots;
                let idx = piece.index();
                if idx < slots.len() {
                    let slot = slots.remove(idx);
                    match slot {
                        Some(v) => {
                            let dead = v.len() == 0;
                            (TreeKind::Known(v), dead)
                        },
                        None => (TreeKind::Known(Vec::new()), true),
                    }
                } else {
                    (TreeKind::Known(Vec::new()), true)
                }
            },
        }
    }
}

impl Tree {
    /// Takes in the revealed next piece, throughout the tree. Returns
    /// whether no line of play survives it.
    pub fn add_next_piece(&mut self, piece: Piece, options: SearchOptions) -> (r: bool)
        ensures
            reveal_step(*old(self), *final(self), piece, options, r),
        decreases *old(self),
    {
        self.board.add_next_piece(piece);
        match self.kind.take() {
            Some(k) => {
                proof {
                    assert(decreases_to!(*old(self) => old(self).kind));
                    assert(decreases_to!(old(self).kind => k));
                }
                let (k, dead) = TreeKind::add_next_piece(k, piece, options);
                if !dead {
                    self.evaluation = k.evaluation(options).discount_onto(self.raw_eval, options);
                }
                self.kind = Some(k);
                dead
            },
            None => false,
        }
    }
}

} // verus!

verus! {

/// Expands one child of a list, chosen by `select_child`; a child that
/// turns out dead is removed.
fn expand_list<E: Evaluator>(children: Vec<Child>, opts: Options, o: SearchOptions, evaluator: &E) -> (r: (
    Vec<Child>,
    ExpandResult,
))
    requires
        list_consistent(children@, opts),
    ensures
        r.0@.len() <= children@.len(),
        children@.len() == 0 ==> r.1.is_death && r.0@.len() == 0,
        !r.1.is_death ==> r.0@.len() > 0,
        children@.len() > 0 ==> exists|c: Child, c2: Child, step: ExpandResult|
            #[trigger] one_expanded(children@, r.0@, c, c2, step, opts, o) && r.1 == (ExpandResult {
                depth: grown(step.depth),
                new_nodes: step.new_nodes,
                is_death: step.is_death,
            }),
    decreases children,
{
    if children.len() == 0 {
        return (children, ExpandResult { depth: 0, new_nodes: 0, is_death: true });
    }
    let ghost orig = children;
    assert(orig@ == children@);
    let (mut sorted, index) = select_child(children, evaluator);
    let ghost pre = sorted@;
    let mut child = sorted.remove(index);
    proof {
        orig@.to_multiset_ensures();
        pre.to_multiset_ensures();
        assert(pre[index as int] == child);
        assert(pre.contains(child));
        assert(orig@.to_multiset().count(child) > 0);
        assert(orig@.contains(child));
        let j = choose|j: int| 0 <= j < orig@.len() && orig@[j] == child;
        assert(queue_consistent(orig@[j].tree, opts));
        assert(decreases_to!(orig => orig@[j]));
        assert(decreases_to!(child => child.tree));
    }
    let ghost c = child;
    let ghost rest = sorted@;
    proof {
        pre.to_multiset_ensures();
        assert(rest.to_multiset() == orig@.to_multiset().remove(c));
    }
    let result = child.tree.expand(opts, o, evaluator);
    let ghost c2w = child;
    assert(expand_step(c.tree, c2w.tree, result, opts, o));
    if !result.is_death {
        sorted.insert(index, child);
        proof {
            let now = sorted@;
            assert(now.remove(index as int) =~= rest);
            now.to_multiset_ensures();
            assert(now[index as int] == child);
            assert(rest.to_multiset() == now.to_multiset().remove(child));
            assert(now.to_multiset().count(child) > 0);
            assert(now.to_multiset() =~= rest.to_multiset().insert(child));
        }
    }
    let depth = grow(result.depth);
    let r = (sorted, ExpandResult { depth, new_nodes: result.new_nodes, is_death: result.is_death });
    proof {
        assert(one_expanded(orig@, r.0@, c, c2w, result, opts, o));
    }
    r
}

/// Whether `after` is `before` with child `c` expanded into `c2` by one
/// step with result `step` (keeping its hold flag, placement and lock), and
/// removed when that step reported death; every other child is kept
/// unchanged, in some order.
pub open spec fn one_expanded(
    before: Seq<Child>,
    after: Seq<Child>,
    c: Child,
    c2: Child,
    step: ExpandResult,
    opts: Options,
    o: SearchOptions,
) -> bool {
    &&& before.to_multiset().count(c) > 0
    &&& expand_step(c.tree, c2.tree, step, opts, o)
    &&& c2.hold == c.hold && c2.mv == c.mv && c2.lock == c.lock
    &&& step.is_death ==> after.to_multiset() == before.to_multiset().remove(c)
    &&& !step.is_death ==> after.to_multiset() == before.to_multiset().remove(c).insert(c2)
}

/// Whether `after` is `before` with the live list of slot `idx` having had
/// one child expanded, and every other slot unchanged.
pub open spec fn slot_step(
    before: Seq<Option<Vec<Child>>>,
    after: Seq<Option<Vec<Child>>>,
    idx: int,
    res: ExpandResult,
    opts: Options,
    o: SearchOptions,
) -> bool {
    &&& 0 <= idx < before.len()
    &&& after.len() == before.len()
    &&& slot_live(before[idx])
    &&& after[idx] is Some
    &&& forall|j: int| 0 <= j < before.len() && j != idx ==> #[trigger] after[j] == before[j]
    &&& exists|c: Child, c2: Child, step: ExpandResult|
        #[trigger] one_expanded(before[idx]->0@, after[idx]->0@, c, c2, step, opts, o) && res.depth == grown(step.depth)
            && res.new_nodes == step.new_nodes
}

impl TreeKind {
    /// One step of expansion below this node: a known list expands one of
    /// its children; a speculated node picks, uniformly at random, a piece
    /// kind whose list is non-empty and expands one child of that list.
    pub fn expand<E: Evaluator>(tk: TreeKind, opts: Options, o: SearchOptions, evaluator: &E) -> (r: (TreeKind, ExpandResult))
        requires
            kind_consistent(tk, opts),
        ensures
            r.1.is_death == kind_dead(r.0),
            tk is Known <==> r.0 is Known,
            tk is Known && tk->Known_0@.len() > 0 ==> exists|c: Child, c2: Child, step: ExpandResult|
                #[trigger] one_expanded(tk->Known_0@, r.0->Known_0@, c, c2, step, opts, o) && r.1.depth == grown(step.depth)
                    && r.1.new_nodes == step.new_nodes && (r.1.is_death ==> step.is_death),
            tk is Unknown ==> r.0->Unknown_0@.len() == tk->Unknown_0@.len() && ((r.0 == tk && r.1.is_death) || exists|idx: int|
                #[trigger] slot_step(tk->Unknown_0@, r.0->Unknown_0@, idx, r.1, opts, o)),
        decreases tk,
    {
        match tk {
            TreeKind::Known(children) => {
                let ghost before = children@;
                let (children, er) = expand_list(children, opts, o, evaluator);
                let dead = children.len() == 0;
                proof {
                    if before.len() > 0 {
                        let (c, c2, step) = choose|c: Child, c2: Child, step: ExpandResult|
                            #[trigger] one_expanded(before, children@, c, c2, step, opts, o) && er == (ExpandResult {
                                depth: grown(step.depth),
                                new_nodes: step.new_nodes,
                                is_death: step.is_death,
                            });
                        assert(one_expanded(before, children@, c, c2, step, opts, o) && (dead ==> step.is_death));
                    }
                }
                let r = (TreeKind::Known(children), ExpandResult { depth: er.depth, new_nodes: er.new_nodes, is_death: dead });
                assert(kind_dead(r.0) == (children@.len() == 0));
                assert(r.1.is_death == kind_dead(r.0));
                r
            },
            TreeKind::Unknown(slots) => {
                let ghost orig = slots;
                let mut slots = slots;
                let n = if slots.len() < 7 { slots.len() } else { 7 };
                let mut pieces: Vec<Piece> = Vec::new();
                let mut i: usize = 0;
                while i < n
                    invariant
                        i <= n,
                        n == slot_count(slots@),
                        n <= 7,
                        forall|k: int| 0 <= k < pieces@.len() ==> piece_index(#[trigger] pieces@[k]) < n
                            && slot_live(slots@[piece_index(pieces@[k])]),
                        pieces@.len() == 0 ==> forall|k: int| 0 <= k < i ==> !slot_live(#[trigger] slots@[k]),
                    decreases n - i,
                {
                    match &slots[i] {
                        Some(c) => {
                            if c.len() > 0 {
                                pieces.push(Piece::from_index(i));
                            }
                        },
                        None => {},
                    }
                    i += 1;
                }
                if pieces.len() == 0 {
                    let dead = all_slots_dead(&slots);
                    let r = (TreeKind::Unknown(slots), ExpandResult { depth: 0, new_nodes: 0, is_death: dead });
                    assert(r.1.is_death == kind_dead(r.0));
                    return r;
                }
                let p = choose_piece(&pieces);
                let idx = p.index();
                proof {
                    let k = choose|k: int| 0 <= k < pieces@.len() && pieces@[k] == p;
                    assert(piece_index(pieces@[k]) < n);
                }
                let slot = slots.remove(idx);
                proof {
                    assert(slot == orig@[idx as int]);
                    assert(decreases_to!(tk => orig));
                    assert(decreases_to!(orig => orig@[idx as int]));
                }
                let children = match slot {
                    Some(v) => {
                        proof {
                            assert(decreases_to!(slot => v));
                        }
                        v
                    },
                    None => Vec::new(),
                };
                let ghost before_list = children@;
                let (children, er) = expand_list(children, opts, o, evaluator);
                let ghost after_list = children@;
                slots.insert(idx, Some(children));
                proof {
                    assert(slots@ =~= orig@.update(idx as int, slots@[idx as int]));
                    assert(slot_live(orig@[idx as int]));
                    assert(before_list == orig@[idx as int]->0@);
                    let (c, c2, step) = choose|c: Child, c2: Child, step: ExpandResult|
                        #[trigger] one_expanded(before_list, after_list, c, c2, step, opts, o) && er == (ExpandResult {
                            depth: grown(step.depth),
                            new_nodes: step.new_nodes,
                            is_death: step.is_death,
                        });
                    assert(one_expanded(orig@[idx as int]->0@, slots@[idx as int]->0@, c, c2, step, opts, o));
                    assert(slot_step(orig@, slots@, idx as int, er, opts, o));
                }
                let ghost sv = slots@;
                let tk = TreeKind::Unknown(slots);
                let dead = tk.is_dead();
                let res = ExpandResult { depth: er.depth, new_nodes: er.new_nodes, is_death: dead };
                let r = (tk, res);
                proof {
                    assert(r.0->Unknown_0@ == sv);
                    assert(slot_step(orig@, r.0->Unknown_0@, idx as int, r.1, opts, o));
                }
                r
            },
        }
    }
}

impl Tree {
    /// Does one step of the search. Returns whether only death is possible
    /// from this position.
    pub fn extend<E: Evaluator>(&mut self, opts: Options, evaluator: &E) -> (r: bool)
        requires
            queue_consistent(*old(self), opts),
        ensures
            final(self).raw_eval == old(self).raw_eval,
            final(self).kind is Some ==> r == kind_dead(final(self).kind->0),
            old(self).kind is Some ==> final(self).kind is Some,
            old(self).kind is None && old(self).board.queue().len() > 0 && !(opts.use_hold && old(self).board.held() is None
                && old(self).board.queue().len() <= 1) ==> (r <==> final(self).kind is None) && (r ==> *final(self) == *old(self)) && (final(self).kind is Some
                ==> final(self).kind->0 is Known && final(self).depth == 1 && final(self).child_nodes == known_list(final(self).kind).len())
                && exists|b1: Board| #[trigger] advanced(b1, old(self).board) && children_owed(b1, old(self).board.queue()[0], opts, known_list(final(self).kind)),
    {
        let o = evaluator.search_options();
        self.extend_with_options(opts, o, evaluator)
    }

    /// Does one step of the search with the discount and penalty `o`.
    /// Returns whether only death is possible from this position.
    pub fn extend_with_options<E: Evaluator>(&mut self, opts: Options, o: SearchOptions, evaluator: &E) -> (r: bool)
        requires
            queue_consistent(*old(self), opts),
        ensures
            final(self).raw_eval == old(self).raw_eval,
            final(self).kind is Some ==> r == kind_dead(final(self).kind->0),
            old(self).kind is Some ==> final(self).kind is Some,
            old(self).kind is None && old(self).board.queue().len() > 0 && !(opts.use_hold && old(self).board.held() is None
                && old(self).board.queue().len() <= 1) ==> (r <==> final(self).kind is None) && (r ==> *final(self) == *old(self)) && (final(self).kind is Some
                ==> final(self).kind->0 is Known && final(self).depth == 1 && final(self).child_nodes == known_list(final(self).kind).len())
                && exists|b1: Board| #[trigger] advanced(b1, old(self).board) && children_owed(b1, old(self).board.queue()[0], opts, known_list(final(self).kind)),
            !r ==> eval_consistent(*final(self), o),
    {
        self.expand(opts, o, evaluator).is_death
    }

    /// One step of expansion at or below this node, with the discount `o`.
    fn expand<E: Evaluator>(&mut self, opts: Options, o: SearchOptions, evaluator: &E) -> (r: ExpandResult)
        requires
            queue_consistent(*old(self), opts),
        ensures
            expand_step(*old(self), *final(self), r, opts, o),
        decreases *old(self),
    {
        match self.kind.take() {
            Some(tk) => {
                proof {
                    assert(decreases_to!(*old(self) => old(self).kind));
                    assert(decreases_to!(old(self).kind => tk));
                }
                let (tk, er) = TreeKind::expand(tk, opts, o, evaluator);
                if !er.is_death {
                    self.evaluation = tk.evaluation(o).discount_onto(self.raw_eval, o);
                    if er.depth > self.depth {
                        self.depth = er.depth;
                    }
                    self.child_nodes = self.child_nodes.saturating_add(er.new_nodes);
                }
                self.kind = Some(tk);
                er
            },
            None => {
                match self.board.get_next_piece() {
                    Ok(_) => {
                        if opts.use_hold && self.board.hold_piece().is_none() && self.board.get_next_next_piece().is_none() {
                            self.speculate(opts, o, evaluator)
                        } else {
                            let dup = self.board.duplicate();
                            let ghost dupv = dup;
                            let children = new_children(dup, opts, evaluator);
                            proof {
                                let b1 = choose|b1: Board| #[trigger] advanced(b1, dupv) && children_owed(b1, dupv.queue()[0], opts, children@);
                                assert(advanced(b1, old(self).board));
                            }
                            if children.len() == 0 {
                                proof {
                                    let b1 = choose|b1: Board| #[trigger] advanced(b1, dupv) && children_owed(b1, dupv.queue()[0], opts, children@);
                                    assert(children@ =~= known_list(self.kind));
                                    assert(advanced(b1, old(self).board) && children_owed(b1, old(self).board.queue()[0], opts, known_list(self.kind)));
                                }
                                ExpandResult { is_death: true, depth: 0, new_nodes: 0 }
                            } else {
                                let ghost cv = children@;
                                self.depth = 1;
                                self.child_nodes = children.len();
                                let tk = TreeKind::Known(children);
                                self.evaluation = tk.evaluation(o).discount_onto(self.raw_eval, o);
                                self.kind = Some(tk);
                                proof {
                                    let b1 = choose|b1: Board| #[trigger] advanced(b1, dupv) && children_owed(b1, dupv.queue()[0], opts, cv);
                                    assert(known_list(self.kind) == cv);
                                    assert(advanced(b1, old(self).board) && children_owed(b1, old(self).board.queue()[0], opts, known_list(self.kind)));
                                }
                                ExpandResult { is_death: false, depth: 1, new_nodes: self.child_nodes }
                            }
                        }
                    },
                    Err(_) => self.speculate(opts, o, evaluator),
                }
            },
        }
    }

    /// Expands an unexpanded node whose next piece is hidden: one list of
    /// children for each piece kind the hidden piece may still be.
    fn speculate<E: Evaluator>(&mut self, opts: Options, o: SearchOptions, evaluator: &E) -> (r: ExpandResult)
        requires
            old(self).kind is None,
        ensures
            final(self).raw_eval == old(self).raw_eval,
            final(self).kind is Some ==> r.is_death == kind_dead(final(self).kind->0),
            !r.is_death ==> eval_consistent(*final(self), o),
            !opts.speculate ==> *final(self) == *old(self) && r == (ExpandResult { depth: 0, new_nodes: 0, is_death: false }),
            opts.speculate ==> (r.is_death <==> final(self).kind is None),
            final(self).board == old(self).board,
            final(self).kind is Some ==> final(self).kind->0 is Unknown && final(self).kind->0->Unknown_0@.len() == 7
                && (forall|p: Piece| #[trigger] candidate(old(self).board, p) ==> final(self).kind->0->Unknown_0@[piece_index(p)] is Some
                    && slot_owed(old(self).board, p, opts, final(self).kind->0->Unknown_0@[piece_index(p)]->0@))
                && (forall|j: int| 0 <= j < 7 && #[trigger] final(self).kind->0->Unknown_0@[j] is Some ==> exists|p: Piece|
                    #[trigger] candidate(old(self).board, p) && piece_index(p) == j)
                && final(self).depth == 1 && r.depth == 1 && r.new_nodes == final(self).child_nodes,
            opts.speculate && r.is_death ==> *final(self) == *old(self) && forall|p: Piece|
                #[trigger] candidate(old(self).board, p) ==> slot_owed(old(self).board, p, opts, Seq::empty()),
    {
        if !opts.speculate {
            return ExpandResult { is_death: false, depth: 0, new_nodes: 0 };
        }
        let possibilities = match self.board.get_next_piece() {
            Ok(_) => {
                let mut b = self.board.duplicate();
                b.advance_queue();
                match b.get_next_piece() {
                    Ok(_) => Vec::new(),
                    Err(p) => p,
                }
            },
            Err(p) => p,
        };
        let mut slots: Vec<Option<Vec<Child>>> = Vec::new();
        let mut k: usize = 0;
        while k < 7
            invariant
                k <= 7,
                slots@.len() == k,
                forall|j: int| 0 <= j < k ==> #[trigger] slots@[j] is None,
            decreases 7 - k,
        {
            slots.push(None);
            k += 1;
        }
        proof {
            if old(self).board.queue().len() <= 1 {
                assert(possibilities@ == bag_members(old(self).board.bag_view(), 7));
            }
        }
        let mut count: usize = 0;
        let mut i: usize = 0;
        while i < possibilities.len()
            invariant
                i <= possibilities@.len(),
                slots@.len() == 7,
                self.kind is None,
                self.raw_eval == old(self).raw_eval,
                self.board == old(self).board,
                forall|k: int| 0 <= k < i ==> #[trigger] slots@[piece_index(possibilities@[k])] is Some
                    && slot_owed(old(self).board, possibilities@[k], opts, slots@[piece_index(possibilities@[k])]->0@),
                forall|j: int| 0 <= j < 7 && #[trigger] slots@[j] is Some ==> exists|k: int| 0 <= k < i && piece_index(possibilities@[k]) == j,
            decreases possibilities@.len() - i,
        {
            let piece = possibilities[i];
            let mut board = self.board.duplicate();
            board.add_next_piece(piece);
            let ghost bp = board;
            assert(added(bp, old(self).board, piece));
            let children = new_children(board, opts, evaluator);
            proof {
                let b1 = choose|b1: Board| #[trigger] advanced(b1, bp) && children_owed(b1, bp.queue()[0], opts, children@);
                assert(added(bp, old(self).board, piece) && advanced(b1, bp));
                assert(slot_owed(old(self).board, piece, opts, children@));
            }
            let ghost kids = children@;
            count = count.saturating_add(children.len());
            let ghost before = slots@;
            slots.set(piece.index(), Some(children));
            proof {
                assert(slots@[piece_index(piece)]->0@ == kids);
                assert forall|k: int| 0 <= k < i + 1 implies #[trigger] slots@[piece_index(possibilities@[k])] is Some
                    && slot_owed(old(self).board, possibilities@[k], opts, slots@[piece_index(possibilities@[k])]->0@) by {
                    if piece_index(possibilities@[k]) != piece_index(piece) {
                        assert(slots@[piece_index(possibilities@[k])] == before[piece_index(possibilities@[k])]);
                    } else {
                        assert(possibilities@[k] == piece);
                    }
                }
                assert forall|j: int| 0 <= j < 7 && #[trigger] slots@[j] is Some implies exists|k: int| 0 <= k < i + 1 && piece_index(possibilities@[k]) == j by {
                    if j == piece_index(piece) {
                        assert(piece_index(possibilities@[i as int]) == j);
                    } else {
                        assert(slots@[j] == before[j]);
                    }
                }
            }
            i += 1;
        }
        proof {
            assert forall|p: Piece| #[trigger] candidate(old(self).board, p) implies slots@[piece_index(p)] is Some
                && slot_owed(old(self).board, p, opts, slots@[piece_index(p)]->0@) by {
                let k = choose|k: int| 0 <= k < possibilities@.len() && possibilities@[k] == p;
                assert(slots@[piece_index(possibilities@[k])] is Some);
            }
            assert forall|j: int| 0 <= j < 7 && #[trigger] slots@[j] is Some implies exists|p: Piece|
                #[trigger] candidate(old(self).board, p) && piece_index(p) == j by {
                let k = choose|k: int| 0 <= k < possibilities@.len() && piece_index(possibilities@[k]) == j;
                let p = possibilities@[k];
                assert(bag_members(old(self).board.bag_view(), 7).contains(p));
                assert(candidate(old(self).board, p));
            }
        }
        if all_slots_dead(&slots) {
            proof {
                assert forall|p: Piece| #[trigger] candidate(old(self).board, p) implies slot_owed(old(self).board, p, opts, Seq::empty()) by {
                    assert(!slot_live(slots@[piece_index(p)]));
                    assert(slots@[piece_index(p)]->0@ =~= Seq::<Child>::empty());
                }
            }
            ExpandResult { is_death: true, depth: 0, new_nodes: 0 }
        } else {
            self.child_nodes = self.child_nodes.saturating_add(count);
            let tk = TreeKind::Unknown(slots);
            self.evaluation = tk.evaluation(o).discount_onto(self.raw_eval, o);
            self.kind = Some(tk);
            self.depth = 1;
            ExpandResult { is_death: false, depth: 1, new_nodes: self.child_nodes }
        }
    }
}

} // verus!

verus! {

/// The score of a known expansion is at least the score of each of its
/// children, on each axis, and on each axis it equals some child's score.
pub proof fn lemma_known_eval_dominates(children: Vec<Child>, o: SearchOptions)
    requires
        children@.len() > 0,
    ensures
        forall|i: int| 0 <= i < children@.len() ==>
            #[trigger] children@[i].tree.evaluation.aggressive <= kind_eval(TreeKind::Known(children), o).aggressive
            && children@[i].tree.evaluation.defensive <= kind_eval(TreeKind::Known(children), o).defensive,
        exists|i: int| 0 <= i < children@.len()
            && #[trigger] children@[i].tree.evaluation.aggressive == kind_eval(TreeKind::Known(children), o).aggressive,
        exists|i: int| 0 <= i < children@.len()
            && #[trigger] children@[i].tree.evaluation.defensive == kind_eval(TreeKind::Known(children), o).defensive,
{
    lemma_best_dominates(children@);
}

} // verus!

verus! {

impl Tree {
    /// Whether `extend` may be called: every unexpanded node knows its next
    /// piece or, with hold in use, its hold piece.
    pub fn can_extend(&self, opts: Options) -> (r: bool)
        ensures
            r == queue_consistent(*self, opts),
        decreases *self,
    {
        match &self.kind {
            None => self.board.get_next_piece().is_ok() || (opts.use_hold && self.board.hold_piece().is_some()),
            Some(TreeKind::Known(cs)) => {
                proof {
                    assert(decreases_to!(*self => self.kind));
                    assert(decreases_to!(self.kind => self.kind->0));
                    assert(decreases_to!(self.kind->0 => *cs));
                }
                list_can_extend(cs, opts)
            },
            Some(TreeKind::Unknown(slots)) => {
                let mut i: usize = 0;
                while i < slots.len()
                    invariant
                        i <= slots@.len(),
                        self.kind == Some(TreeKind::Unknown(*slots)),
                        forall|k: int, j: int|
                            0 <= k < i && slots@[k] is Some && 0 <= j < slots@[k]->0@.len() ==> queue_consistent(
                                #[trigger] slots@[k]->0@[j].tree,
                                opts,
                            ),
                    decreases slots@.len() - i,
                {
                    match &slots[i] {
                        Some(cs) => {
                            proof {
                                assert(decreases_to!(*self => self.kind));
                                assert(decreases_to!(self.kind => self.kind->0));
                                assert(self.kind->0->Unknown_0 == *slots);
                                assert(decreases_to!(self.kind->0 => self.kind->0->Unknown_0));
                                assert(decreases_to!(*slots => slots@[i as int]));
                                assert(decreases_to!(slots@[i as int] => *cs));
                            }
                            if !list_can_extend(cs, opts) {
                                return false;
                            }
                        },
                        None => {},
                    }
                    i += 1;
                }
                true
            },
        }
    }
}

/// Whether `can_extend` holds of every child's subtree.
fn list_can_extend(cs: &Vec<Child>, opts: Options) -> (r: bool)
    ensures
        r == list_consistent(cs@, opts),
    decreases *cs,
{
    let mut i: usize = 0;
    while i < cs.len()
        invariant
            i <= cs@.len(),
            forall|k: int| 0 <= k < i ==> queue_consistent(#[trigger] cs@[k].tree, opts),
        decreases cs@.len() - i,
    {
        proof {
            assert(decreases_to!(*cs => cs@[i as int]));
            assert(decreases_to!(cs@[i as int] => cs@[i as int].tree));
        }
        if !cs[i].tree.can_extend(opts) {
            return false;
        }
        i += 1;
    }
    true
}

} // verus!
