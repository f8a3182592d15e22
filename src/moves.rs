//! Move generation: every distinct resting place a piece can reach from its
//! spawn, each with the cheapest input sequence found for it.
use vstd::prelude::*;
use arrayvec::ArrayVec;
use crate::arrays::{held_movements, movements_new, movements_push, movements_len, movements_get, movements_clone};
use crate::board::Board;
use crate::piece::{
    FallingPiece, PieceMovement, RotationState, TspinStatus, obstructs, piece_cells, moved, drop_outcome,
    lemma_free_in_range,
};

verus! {

/// A bounded sequence of inputs and the time it takes to perform them.
#[derive(Debug)]
pub struct InputList {
    pub movements: ArrayVec<PieceMovement, 32>,
    pub time: u32,
}

/// A sequence of inputs and the piece it leaves.
#[derive(Debug)]
pub struct Placement {
    pub inputs: InputList,
    pub location: FallingPiece,
}

/// A chosen move: the inputs, where the piece should end up, and whether
/// hold is used first.
#[derive(Debug)]
pub struct Move {
    pub inputs: ArrayVec<PieceMovement, 32>,
    pub expected_location: FallingPiece,
    pub hold: bool,
}

/// How the piece falls while it is moved.
#[derive(Copy, Clone, Debug, Hash, PartialEq, Eq, Structural)]
pub enum MovementMode {
    ZeroG,
    ZeroGComplete,
    TwentyG,
    HardDropOnly,
}

/// The number of distinct search states of one piece kind: anchor columns
/// -2..=11, anchor rows -2..=41, four orientations, two T-spin statuses.
pub const STATE_COUNT: usize = 4928;

/// The longest input sequence.
pub const MAX_INPUTS: usize = 32;

/// What identifies a resting place: the set of cells and the T-spin status.
pub open spec fn lock_key(p: FallingPiece) -> (Set<(int, int)>, TspinStatus) {
    (piece_cells(p).to_set(), p.tspin)
}

/// Whether the piece comes to rest with at least one cell at or below row 23.
pub open spec fn low_enough(p: FallingPiece) -> bool {
    exists|i: int| 0 <= i < 4 && #[trigger] piece_cells(p)[i].1 <= 23
}

/// Whether a found placement is a legal lock: the piece is free, cannot
/// fall further, and is not wholly inside the spawn buffer.
pub open spec fn valid_lock(b: Board, p: Placement) -> bool {
    &&& !obstructs(b, p.location)
    &&& obstructs(b, moved(p.location, 0, -1))
    &&& low_enough(p.location)
    &&& held_movements(p.inputs.movements).len() <= 32
}

/// No two placements share a resting place.
pub open spec fn distinct_locks(s: Seq<Placement>) -> bool {
    forall|i: int, j: int|
        0 <= i < s.len() && 0 <= j < s.len() && i != j ==> lock_key(#[trigger] s[i].location) != lock_key(
            #[trigger] s[j].location,
        )
}

/// Whether a frontier entry is a legal search state of a kind-`k` piece
/// whose time stays within its bound.
pub open spec fn frontier_ok(b: Board, p: Placement, k: crate::piece::Piece) -> bool {
    &&& !obstructs(b, p.location)
    &&& p.location.kind.0 == k
    &&& held_movements(p.inputs.movements).len() <= 32
    &&& p.inputs.time <= 100 * held_movements(p.inputs.movements).len()
}

/// The number of unvisited entries.
pub open spec fn unset_count(s: Seq<bool>) -> nat
    decreases s.len(),
{
    if s.len() == 0 {
        0
    } else {
        unset_count(s.drop_last()) + if s.last() { 0nat } else { 1nat }
    }
}

proof fn lemma_unset_update(s: Seq<bool>, i: int)
    requires
        0 <= i < s.len(),
        !s[i],
    ensures
        unset_count(s.update(i, true)) + 1 == unset_count(s),
    decreases s.len(),
{
    let t = s.update(i, true);
    if i == s.len() - 1 {
        assert(t.drop_last() =~= s.drop_last());
    } else {
        lemma_unset_update(s.drop_last(), i);
        assert(t.drop_last() =~= s.drop_last().update(i, true));
    }
}

pub open spec fn rotation_index(r: RotationState) -> int {
    match r {
        RotationState::North => 0,
        RotationState::South => 1,
        RotationState::East => 2,
        RotationState::West => 3,
    }
}

/// The index of a search state in the visited table.
pub open spec fn state_code(p: FallingPiece) -> int {
    (((p.x + 2) * 44 + (p.y + 2)) * 4 + rotation_index(p.kind.1)) * 2 + (if p.tspin == TspinStatus::Full { 1int } else { 0 })
}

fn code_of(p: &FallingPiece) -> (r: usize)
    requires
        -2 <= p.x <= 11,
        -2 <= p.y <= 41,
    ensures
        r as int == state_code(*p),
        r < STATE_COUNT,
{
    let rot: usize = match p.kind.1 {
        RotationState::North => 0,
        RotationState::South => 1,
        RotationState::East => 2,
        RotationState::West => 3,
    };
    let spin: usize = match p.tspin {
        TspinStatus::Full => 1,
        TspinStatus::NoSpin => 0,
    };
    let x = (p.x + 2) as usize;
    let y = (p.y + 2) as usize;
    ((x * 44 + y) * 4 + rot) * 2 + spin
}

impl InputList {
    /// A copy of this list.
    pub fn duplicate(&self) -> (r: InputList)
        ensures
            held_movements(r.movements) == held_movements(self.movements),
            r.time == self.time,
    {
        InputList { movements: movements_clone(&self.movements), time: self.time }
    }
}

impl Placement {
    /// A copy of this placement.
    pub fn duplicate(&self) -> (r: Placement)
        ensures
            held_movements(r.inputs.movements) == held_movements(self.inputs.movements),
            r.inputs.time == self.inputs.time,
            r.location == self.location,
    {
        Placement { inputs: self.inputs.duplicate(), location: self.location }
    }
}

/// Whether the two pieces rest on the same cells with the same T-spin status.
fn same_lock(a: &FallingPiece, b: &FallingPiece) -> (r: bool)
    requires
        crate::piece::in_range(*a),
        crate::piece::in_range(*b),
    ensures
        r == (lock_key(*a) == lock_key(*b)),
{
    let ca = a.cells();
    let cb = b.cells();
    let ghost sa = piece_cells(*a);
    let ghost sb = piece_cells(*b);
    let spin_same = match (a.tspin, b.tspin) {
        (TspinStatus::Full, TspinStatus::Full) => true,
        (TspinStatus::NoSpin, TspinStatus::NoSpin) => true,
        _ => false,
    };
    let r = spin_same && covered(&ca, &cb) && covered(&cb, &ca);
    proof {
        if spin_same && covered_spec(sa, sb) && covered_spec(sb, sa) {
            assert(sa.to_set() =~= sb.to_set());
        }
        if sa.to_set() == sb.to_set() {
            assert forall|i: int| 0 <= i < 4 implies sb.contains(#[trigger] sa[i]) by {
                assert(sa.to_set().contains(sa[i]));
            }
            assert forall|i: int| 0 <= i < 4 implies sa.contains(#[trigger] sb[i]) by {
                assert(sb.to_set().contains(sb[i]));
            }
        }
    }
    r
}

pub open spec fn covered_spec(a: Seq<(int, int)>, b: Seq<(int, int)>) -> bool {
    forall|i: int| 0 <= i < 4 ==> b.contains(#[trigger] a[i])
}

/// Whether every cell of `a` is a cell of `b`.
fn covered(a: &[(i32, i32); 4], b: &[(i32, i32); 4]) -> (r: bool)
    ensures
        r == covered_spec(crate::piece::cells_view(*a), crate::piece::cells_view(*b)),
{
    let ghost va = crate::piece::cells_view(*a);
    let ghost vb = crate::piece::cells_view(*b);
    let mut i: usize = 0;
    while i < 4
        invariant
            i <= 4,
            va == crate::piece::cells_view(*a),
            vb == crate::piece::cells_view(*b),
            forall|k: int| 0 <= k < i ==> vb.contains(#[trigger] va[k]),
        decreases 4 - i,
    {
        let c = a[i];
        assert(va[i as int] == (c.0 as int, c.1 as int));
        let mut found = false;
        let mut j: usize = 0;
        while j < 4
            invariant
                j <= 4,
                vb == crate::piece::cells_view(*b),
                found == exists|k: int| 0 <= k < j && #[trigger] vb[k] == (c.0 as int, c.1 as int),
            decreases 4 - j,
        {
            assert(vb[j as int] == (b[j as int].0 as int, b[j as int].1 as int));
            if b[j].0 == c.0 && b[j].1 == c.1 {
                found = true;
            }
            j += 1;
        }
        if !found {
            return false;
        }
        i += 1;
    }
    true
}

} // verus!

verus! {

/// Records `piece` as a lock reached by `moves`, unless it rests wholly in
/// the spawn buffer or its resting place is already recorded (the first
/// path found to a place is the cheapest).
fn lock_check(board: &Board, piece: FallingPiece, locks: &mut Vec<Placement>, moves: InputList)
    requires
        !obstructs(*board, piece),
        obstructs(*board, moved(piece, 0, -1)),
        held_movements(moves.movements).len() <= 32,
        distinct_locks(old(locks)@),
        forall|i: int| 0 <= i < old(locks)@.len() ==> valid_lock(*board, #[trigger] old(locks)@[i]),
    ensures
        distinct_locks(final(locks)@),
        forall|i: int| 0 <= i < final(locks)@.len() ==> valid_lock(*board, #[trigger] final(locks)@[i]),
        final(locks)@.len() <= old(locks)@.len() + 1,
        final(locks)@.len() >= old(locks)@.len(),
        forall|i: int| old(locks)@.len() <= i < final(locks)@.len() ==> #[trigger] final(locks)@[i] == (Placement {
            inputs: moves,
            location: piece,
        }),
        forall|i: int| 0 <= i < old(locks)@.len() ==> #[trigger] final(locks)@[i] == old(locks)@[i],
        low_enough(piece) ==> exists|i: int|
            0 <= i < final(locks)@.len() && lock_key(#[trigger] final(locks)@[i].location) == lock_key(piece),
{
    proof {
        lemma_free_in_range(*board, piece);
    }
    let cells = piece.cells();
    let mut low = false;
    let mut i: usize = 0;
    while i < 4
        invariant
            i <= 4,
            crate::piece::cells_view(cells) == piece_cells(piece),
            low == exists|k: int| 0 <= k < i && #[trigger] piece_cells(piece)[k].1 <= 23,
        decreases 4 - i,
    {
        assert(piece_cells(piece)[i as int] == (cells[i as int].0 as int, cells[i as int].1 as int));
        if cells[i].1 <= 23 {
            low = true;
        }
        i += 1;
    }
    if !low {
        return;
    }
    let mut j: usize = 0;
    while j < locks.len()
        invariant
            j <= locks@.len(),
            locks@ == old(locks)@,
            distinct_locks(locks@),
            crate::piece::in_range(piece),
            forall|i: int| 0 <= i < locks@.len() ==> valid_lock(*board, #[trigger] locks@[i]),
            forall|k: int| 0 <= k < j ==> lock_key(#[trigger] locks@[k].location) != lock_key(piece),
        decreases locks@.len() - j,
    {
        proof {
            assert(valid_lock(*board, locks@[j as int]));
            lemma_free_in_range(*board, locks@[j as int].location);
        }
        if same_lock(&locks[j].location, &piece) {
            assert(lock_key(locks@[j as int].location) == lock_key(piece));
            return;
        }
        j += 1;
    }
    locks.push(Placement { inputs: moves, location: piece });
    proof {
        let n = old(locks)@.len() as int;
        assert(lock_key(locks@[n].location) == lock_key(piece));
    }
}

/// Whether an input list holds no manual sonic drop.
pub open spec fn no_drop_input(l: InputList) -> bool {
    !held_movements(l.movements).contains(PieceMovement::SonicDrop)
}

/// Whether a straight drop to `q` is recorded with time 0 and the inputs `n`
/// (when it rests low enough to count).
pub open spec fn straight_recorded(r: Seq<Placement>, q: FallingPiece, n: Seq<PieceMovement>) -> bool {
    low_enough(q) ==> exists|i: int|
        0 <= i < r.len() && lock_key(#[trigger] r[i].location) == lock_key(q) && r[i].inputs.time == 0
            && held_movements(r[i].inputs.movements) == n
}

/// Everything `find_moves` promises of its result `r`.
pub open spec fn moves_contract(board: Board, spawned: FallingPiece, mode: MovementMode, r: Seq<Placement>) -> bool {
    &&& distinct_locks(r)
    &&& forall|i: int| 0 <= i < r.len() ==> valid_lock(board, #[trigger] r[i])
    &&& mode != MovementMode::TwentyG ==> exists|q: FallingPiece, fell: bool|
        #[trigger] drop_outcome(board, spawned, q, fell) && straight_recorded(r, q, Seq::empty())
    &&& mode == MovementMode::TwentyG ==> exists|q0: FallingPiece, f0: bool, q: FallingPiece, f: bool|
        #![trigger drop_outcome(board, spawned, q0, f0), drop_outcome(board, q0, q, f)]
        drop_outcome(board, spawned, q0, f0) && drop_outcome(board, q0, q, f) && straight_recorded(
            r,
            q,
            seq![PieceMovement::SonicDrop],
        )
    &&& mode == MovementMode::HardDropOnly ==> forall|i: int| 0 <= i < r.len() ==> no_drop_input(#[trigger] r[i].inputs)
    &&& forall|i: int| 0 <= i < r.len() ==> lock_reaches(board, spawned, #[trigger] r[i])
    &&& mode != MovementMode::TwentyG ==> forall|i: int| 0 <= i < r.len() ==> lock_timed(board, spawned, #[trigger] r[i])
}

/// The measure that each step of the search lowers.
pub open spec fn search_measure(checked: Seq<bool>, frontier: Seq<Placement>) -> int {
    2 * unset_count(checked) + frontier.len() as int
}

/// The ticks one action costs: two per cell fallen for a sonic drop (from
/// `from_y` down to `to_y`), one for any other action, plus one when it
/// repeats the previous action.
pub open spec fn action_cost(input: PieceMovement, from_y: int, to_y: int, previous: Seq<PieceMovement>) -> int {
    (if input == PieceMovement::SonicDrop { 2 * (from_y - to_y) } else { 1 }) + (if previous.len() > 0
        && previous.last() == input { 1int } else { 0 })
}

/// Whether `e` is what `input` adds to the frontier from `moves` at `piece`:
/// the input once, `k - 1` held repeats at two ticks each, and in 20G mode
/// possibly the recorded forced drop.
pub open spec fn pushed_entry(
    b: Board,
    moves: InputList,
    piece: FallingPiece,
    mode: MovementMode,
    input: PieceMovement,
    repeat: bool,
    e: Placement,
) -> bool {
    exists|q: FallingPiece, k: nat, drop: bool| #[trigger] pushed_as(b, moves, piece, mode, input, repeat, e, q, k, drop)
}

/// `pushed_entry`, with the pose `q` after the first application, the count
/// `k` of applications, and whether the forced drop was recorded.
pub open spec fn pushed_as(
    b: Board,
    moves: InputList,
    piece: FallingPiece,
    mode: MovementMode,
    input: PieceMovement,
    repeat: bool,
    e: Placement,
    q: FallingPiece,
    k: nat,
    drop: bool,
) -> bool {
    &&& crate::piece::movement_outcome(input, b, piece, q, true)
    &&& k >= 1
    &&& (!repeat ==> k == 1)
    &&& (drop ==> mode == MovementMode::TwentyG)
    &&& held_movements(e.inputs.movements) == held_movements(moves.movements) + Seq::new(k, |i: int| input) + (if drop {
        seq![PieceMovement::SonicDrop]
    } else {
        Seq::empty()
    })
    &&& e.inputs.time == moves.time + action_cost(input, piece.y as int, q.y as int, held_movements(moves.movements)) + 2 * (
    k - 1)
}

/// Applies `input` to `piece` (repeating it until blocked when `repeat`),
/// and adds the resulting state to the frontier if it has not been seen.
/// Returns whether the input applied.
#[verifier::rlimit(80)]
fn attempt(
    board: &Board,
    moves: &InputList,
    piece: FallingPiece,
    checked: &mut Vec<bool>,
    check_queue: &mut Vec<Placement>,
    mode: MovementMode,
    input: PieceMovement,
    repeat: bool,
    Ghost(s0): Ghost<FallingPiece>,
) -> (r: bool)
    requires
        !obstructs(*board, piece),
        replays(*board, s0, held_movements(moves.movements), piece),
        forall|i: int| 0 <= i < old(check_queue)@.len() ==> entry_reaches(*board, s0, #[trigger] old(check_queue)@[i]),
        repeat ==> input == PieceMovement::Left || input == PieceMovement::Right,
        mode != MovementMode::TwentyG ==> timed(*board, s0, Seq::empty(), held_movements(moves.movements), piece, moves.time as int),
        mode != MovementMode::TwentyG ==> forall|i: int| 0 <= i < old(check_queue)@.len() ==> entry_timed(*board, s0, #[trigger] old(check_queue)@[i]),
        held_movements(moves.movements).len() < 32,
        moves.time <= 100 * held_movements(moves.movements).len(),
        old(checked)@.len() == STATE_COUNT,
        forall|i: int| 0 <= i < old(check_queue)@.len() ==> frontier_ok(*board, #[trigger] old(check_queue)@[i], piece.kind.0),
    ensures
        final(checked)@.len() == STATE_COUNT,
        forall|i: int| 0 <= i < final(check_queue)@.len() ==> frontier_ok(*board, #[trigger] final(check_queue)@[i], piece.kind.0),
        forall|i: int| 0 <= i < final(check_queue)@.len() ==> entry_reaches(*board, s0, #[trigger] final(check_queue)@[i]),
        mode != MovementMode::TwentyG ==> forall|i: int| 0 <= i < final(check_queue)@.len() ==> entry_timed(*board, s0, #[trigger] final(check_queue)@[i]),
        search_measure(final(checked)@, final(check_queue)@) <= search_measure(old(checked)@, old(check_queue)@),
        exists|q: FallingPiece| #[trigger] crate::piece::movement_outcome(input, *board, piece, q, r),
        !r ==> *final(checked) == *old(checked) && *final(check_queue) == *old(check_queue),
        final(check_queue)@.len() == old(check_queue)@.len() || final(check_queue)@.len() == old(check_queue)@.len() + 1,
        forall|i: int| 0 <= i < old(check_queue)@.len() ==> #[trigger] final(check_queue)@[i] == old(check_queue)@[i],
        final(check_queue)@.len() == old(check_queue)@.len() + 1 ==> pushed_entry(
            *board,
            *moves,
            piece,
            mode,
            input,
            repeat,
            final(check_queue)@[old(check_queue)@.len() as int],
        ),
        final(check_queue)@.len() == old(check_queue)@.len() ==> !r || (mode == MovementMode::HardDropOnly && input
            == PieceMovement::SonicDrop) || final(checked)@ == old(checked)@,
        final(check_queue)@.len() == old(check_queue)@.len() + 1 ==> exists|x: FallingPiece|
            #[trigger] replays(
                *board,
                piece,
                held_movements(final(check_queue)@[old(check_queue)@.len() as int].inputs.movements).subrange(
                    held_movements(moves.movements).len() as int,
                    held_movements(final(check_queue)@[old(check_queue)@.len() as int].inputs.movements).len() as int,
                ),
                x,
            ) && (x == final(check_queue)@[old(check_queue)@.len() as int].location || (held_movements(
                final(check_queue)@[old(check_queue)@.len() as int].inputs.movements,
            ).len() == 32 && exists|f: bool| drop_outcome(*board, x, final(check_queue)@[old(check_queue)@.len() as int].location, f))),
        final(check_queue)@.len() == old(check_queue)@.len() + 1 && mode == MovementMode::HardDropOnly && no_drop_input(
            *moves,
        ) ==> no_drop_input(final(check_queue)@[old(check_queue)@.len() as int].inputs),
{
    let ghost kind = piece.kind.0;
    let ghost start = piece;
    let mut piece = piece;
    let orig_y = piece.y;
    proof {
        lemma_free_in_range(*board, piece);
    }
    let ghost old_moves = *moves;
    let applied = input.apply(&mut piece, board);
    let ghost q1 = piece;
    if applied {
        proof {
            lemma_free_in_range(*board, piece);
        }
        let mut moves = moves.duplicate();
        let ghost base = held_movements(moves.movements);
        assert(orig_y - piece.y <= 43);
        if input == PieceMovement::SonicDrop {
            moves.time = moves.time + 2 * (orig_y - piece.y) as u32;
        } else {
            moves.time = moves.time + 1;
        }
        let n = movements_len(&moves.movements);
        if n > 0 {
            let m = movements_get(&moves.movements, n - 1);
            if m == input {
                moves.time = moves.time + 1;
            }
        }
        let ghost first_time = moves.time;
        movements_push(&mut moves.movements, input);
        let ghost mut k: nat = 1;
        proof {
            assert(held_movements(moves.movements) =~= base + Seq::new(k, |i: int| input));
        }
        let ghost first_cost = action_cost(input, start.y as int, q1.y as int, base);
        proof {
            assert(replays(*board, start, Seq::<PieceMovement>::empty(), start));
            lemma_replays_push(*board, start, Seq::<PieceMovement>::empty(), start, input, q1, true);
            assert(Seq::<PieceMovement>::empty().push(input) =~= Seq::new(k, |i: int| input));
            assert(timed(*board, start, base, Seq::<PieceMovement>::empty(), start, 0));
            lemma_timed_push(*board, start, base, Seq::<PieceMovement>::empty(), start, 0, input, q1);
            assert(base + Seq::<PieceMovement>::empty() =~= base);
            assert(timed(*board, start, base, Seq::new(k, |i: int| input), piece, first_cost));
            assert(first_time == old_moves.time + first_cost);
        }
        let mut going = repeat;
        while going && movements_len(&moves.movements) < MAX_INPUTS
            invariant
                k >= 1,
                !repeat ==> k == 1,
                !repeat ==> !going,
                held_movements(moves.movements) == base + Seq::new(k, |i: int| input),
                moves.time == first_time + 2 * (k - 1),
                !obstructs(*board, piece),
                piece.kind.0 == kind,
                checked@ == old(checked)@,
                check_queue@ == old(check_queue)@,
                held_movements(moves.movements).len() <= 32,
                moves.time <= 100 * held_movements(moves.movements).len(),
                replays(*board, start, Seq::new(k, |i: int| input), piece),
                timed(*board, start, base, Seq::new(k, |i: int| input), piece, first_cost + 2 * (k - 1)),
                repeat ==> input == PieceMovement::Left || input == PieceMovement::Right,
            decreases 2 * (32 - held_movements(moves.movements).len()) + (if going { 1int } else { 0 }),
        {
            let ghost before = piece;
            proof {
                lemma_free_in_range(*board, piece);
            }
            if input.apply(&mut piece, board) {
                movements_push(&mut moves.movements, input);
                moves.time = moves.time + 2;
                proof {
                    lemma_replays_push(*board, start, Seq::new(k, |i: int| input), before, input, piece, true);
                    let prev = base + Seq::new(k, |i: int| input);
                    assert(prev.last() == input);
                    assert(action_cost(input, before.y as int, piece.y as int, prev) == 2);
                    lemma_timed_push(*board, start, base, Seq::new(k, |i: int| input), before, first_cost + 2 * (k - 1), input, piece);
                    assert(Seq::new(k, |i: int| input).push(input) =~= Seq::new(k + 1, |i: int| input));
                    k = k + 1;
                    assert(held_movements(moves.movements) =~= base + Seq::new(k, |i: int| input));
                }
            } else {
                going = false;
            }
        }
        proof {
            lemma_free_in_range(*board, piece);
        }
        let ghost before_drop = piece;
        let drop_input = if mode == MovementMode::TwentyG {
            let fell = piece.sonic_drop(board);
            proof {
                crate::piece::lemma_movement_keeps_free(PieceMovement::SonicDrop, *board, before_drop, piece, fell);
            }
            fell
        } else {
            false
        };
        proof {
            lemma_free_in_range(*board, piece);
        }
        let code = code_of(&piece);
        if !checked[code] {
            proof {
                lemma_unset_update(checked@, code as int);
            }
            checked.set(code, true);
            let ghost mid = held_movements(moves.movements);
            let mut recorded_drop = false;
            if drop_input && movements_len(&moves.movements) < MAX_INPUTS {
                movements_push(&mut moves.movements, PieceMovement::SonicDrop);
                recorded_drop = true;
            }
            let ghost suffix = Seq::new(k, |i: int| input) + (if recorded_drop {
                seq![PieceMovement::SonicDrop]
            } else {
                Seq::empty()
            });
            proof {
                if recorded_drop {
                    lemma_replays_push(*board, start, Seq::new(k, |i: int| input), before_drop, PieceMovement::SonicDrop, piece, true);
                    assert(Seq::new(k, |i: int| input).push(PieceMovement::SonicDrop) =~= suffix);
                    assert(replays(*board, start, suffix, piece));
                } else {
                    assert(suffix =~= Seq::new(k, |i: int| input));
                    if mode == MovementMode::TwentyG && !drop_input {
                        assert(piece == before_drop);
                    }
                }
            }
            proof {
                assert(held_movements(moves.movements) =~= base + Seq::new(k, |i: int| input) + (if recorded_drop {
                    seq![PieceMovement::SonicDrop]
                } else {
                    Seq::empty()
                }));
            }
            if !(mode == MovementMode::HardDropOnly && input == PieceMovement::SonicDrop) {
                check_queue.push(Placement { inputs: moves, location: piece });
                proof {
                    let e = check_queue@[old(check_queue)@.len() as int];
                    assert(crate::piece::movement_outcome(input, *board, start, q1, true));
                    assert(e.inputs.time == old_moves.time + action_cost(input, start.y as int, q1.y as int, base) + 2 * (k - 1));
                    assert(pushed_as(*board, old_moves, start, mode, input, repeat, e, q1, k, recorded_drop));
                    let full = held_movements(e.inputs.movements);
                    assert(full.subrange(base.len() as int, full.len() as int) =~= suffix);
                    assert(full =~= base + suffix);
                    if mode != MovementMode::TwentyG {
                        assert(suffix =~= Seq::new(k, |i: int| input));
                        assert(Seq::<PieceMovement>::empty() + base =~= base);
                        lemma_timed_concat(*board, s0, Seq::empty(), base, start, old_moves.time as int, suffix, e.location, first_cost + 2 * (k - 1));
                        assert(entry_timed(*board, s0, e));
                        assert forall|i: int| 0 <= i < check_queue@.len() implies entry_timed(*board, s0, #[trigger] check_queue@[i]) by {
                            if i < old(check_queue)@.len() {
                                assert(check_queue@[i] == old(check_queue)@[i]);
                            }
                        }
                    }
                    if recorded_drop || mode != MovementMode::TwentyG || !drop_input {
                        assert(replays(*board, start, suffix, e.location));
                        lemma_replays_concat(*board, s0, base, start, suffix, e.location);
                        assert(entry_reaches(*board, s0, e));
                    } else {
                        assert(replays(*board, start, suffix, before_drop));
                        assert(drop_outcome(*board, before_drop, e.location, drop_input));
                        lemma_replays_concat(*board, s0, base, start, suffix, before_drop);
                        assert(replays(*board, s0, full, before_drop));
                        assert(entry_reaches(*board, s0, e));
                    }
                    assert forall|i: int| 0 <= i < check_queue@.len() implies entry_reaches(*board, s0, #[trigger] check_queue@[i]) by {
                        if i < old(check_queue)@.len() {
                            assert(check_queue@[i] == old(check_queue)@[i]);
                        }
                    }
                    if mode == MovementMode::HardDropOnly && no_drop_input(old_moves) {
                        let full = held_movements(e.inputs.movements);
                        assert forall|j: int| 0 <= j < full.len() implies full[j] != PieceMovement::SonicDrop by {
                            if j < base.len() {
                                assert(full[j] == base[j]);
                                assert(base.contains(base[j]));
                            } else {
                                assert(full[j] == input);
                            }
                        }
                    }
                }
            }
        }
    }
    applied
}

} // verus!

verus! {

/// Whether `a` costs no more than `b`: less time, or equal time and no more inputs.
pub open spec fn cost_le(a: InputList, b: InputList) -> bool {
    a.time < b.time || (a.time == b.time && held_movements(a.movements).len() <= held_movements(b.movements).len())
}

/// Removes and returns the cheapest frontier entry; among equally cheap
/// entries, the one added last.
fn take_cheapest(q: &mut Vec<Placement>) -> (r: Placement)
    requires
        old(q)@.len() > 0,
    ensures
        exists|i: int|
            0 <= i < old(q)@.len() && r == old(q)@[i] && final(q)@ == old(q)@.remove(i),
        forall|j: int| 0 <= j < old(q)@.len() ==> cost_le(r.inputs, #[trigger] old(q)@[j].inputs),
{
    let mut best: usize = 0;
    let mut best_time = q[0].inputs.time;
    let mut best_len = movements_len(&q[0].inputs.movements);
    let mut i: usize = 1;
    while i < q.len()
        invariant
            1 <= i <= q@.len(),
            q@ == old(q)@,
            best < i,
            best_time == q@[best as int].inputs.time,
            best_len == held_movements(q@[best as int].inputs.movements).len(),
            forall|j: int| 0 <= j < i ==> cost_le(q@[best as int].inputs, #[trigger] q@[j].inputs),
        decreases q@.len() - i,
    {
        let t = q[i].inputs.time;
        let l = movements_len(&q[i].inputs.movements);
        if t < best_time || (t == best_time && l <= best_len) {
            best = i;
            best_time = t;
            best_len = l;
        }
        i += 1;
    }
    q.remove(best)
}

/// Every distinct resting place reachable from `spawned`, each with the
/// cheapest input sequence the search found for it. No two results rest on
/// the same cells with the same T-spin status; each result's inputs, replayed
/// from the spawn and followed by a drop, leave the piece at its location;
/// the straight drop is always among the results, at time 0; and in
/// hard-drop-only mode no result asks for a manual sonic drop.
#[verifier::rlimit(100)]
#[verifier::spinoff_prover]
pub fn find_moves(board: &Board, spawned: FallingPiece, mode: MovementMode) -> (r: Vec<Placement>)
    requires
        !obstructs(*board, spawned),
    ensures
        distinct_locks(r@),
        forall|i: int| 0 <= i < r@.len() ==> valid_lock(*board, #[trigger] r@[i]),
        mode != MovementMode::TwentyG ==> exists|q: FallingPiece, fell: bool|
            #[trigger] drop_outcome(*board, spawned, q, fell) && straight_recorded(r@, q, Seq::empty()),
        mode == MovementMode::TwentyG ==> exists|q0: FallingPiece, f0: bool, q: FallingPiece, f: bool|
            #![trigger drop_outcome(*board, spawned, q0, f0), drop_outcome(*board, q0, q, f)]
            drop_outcome(*board, spawned, q0, f0) && drop_outcome(*board, q0, q, f) && straight_recorded(
                r@,
                q,
                seq![PieceMovement::SonicDrop],
            ),
        mode == MovementMode::HardDropOnly ==> forall|i: int| 0 <= i < r@.len() ==> no_drop_input(#[trigger] r@[i].inputs),
        forall|i: int| 0 <= i < r@.len() ==> lock_reaches(*board, spawned, #[trigger] r@[i]),
        mode != MovementMode::TwentyG ==> forall|i: int| 0 <= i < r@.len() ==> lock_timed(*board, spawned, #[trigger] r@[i]),
        moves_contract(*board, spawned, mode, r@),
{
    let ghost kind = spawned.kind.0;
    let ghost start = spawned;
    let mut spawned = spawned;
    let mut locks: Vec<Placement> = Vec::new();
    let mut checked: Vec<bool> = vec![false; STATE_COUNT];
    let mut check_queue: Vec<Placement> = Vec::new();
    let mut movements = movements_new();
    if mode == MovementMode::TwentyG {
        let ghost before = spawned;
        let fell = spawned.sonic_drop(board);
        proof {
            crate::piece::lemma_movement_keeps_free(PieceMovement::SonicDrop, *board, before, spawned, fell);
            assert(drop_outcome(*board, start, spawned, fell));
        }
        movements_push(&mut movements, PieceMovement::SonicDrop);
    }
    proof {
        lemma_free_in_range(*board, spawned);
    }
    let code = code_of(&spawned);
    checked.set(code, true);
    check_queue.push(Placement { inputs: InputList { movements, time: 0 }, location: spawned });
    let ghost mut straight: Option<FallingPiece> = None;
    let ghost first_inputs = if mode == MovementMode::TwentyG { seq![PieceMovement::SonicDrop] } else { Seq::<PieceMovement>::empty() };
    proof {
        assert(held_movements(check_queue@[0].inputs.movements) =~= first_inputs);
        assert(replays(*board, start, Seq::<PieceMovement>::empty(), start));
        if mode == MovementMode::TwentyG {
            let f0 = choose|f0: bool| drop_outcome(*board, start, spawned, f0);
            lemma_replays_push(*board, start, Seq::<PieceMovement>::empty(), start, PieceMovement::SonicDrop, spawned, f0);
            assert(Seq::<PieceMovement>::empty().push(PieceMovement::SonicDrop) =~= first_inputs);
            assert(replays(*board, start, first_inputs, spawned));
        }
        assert(entry_reaches(*board, start, check_queue@[0]));
        if mode != MovementMode::TwentyG {
            assert(entry_timed(*board, start, check_queue@[0]));
        }
        if mode == MovementMode::HardDropOnly {
            assert(held_movements(check_queue@[0].inputs.movements).len() == 0);
            assert(no_drop_input(check_queue@[0].inputs));
        }
    }
    while check_queue.len() > 0
        invariant
            checked@.len() == STATE_COUNT,
            straight is None ==> check_queue@.len() == 1 && check_queue@[0].location == spawned
                && check_queue@[0].inputs.time == 0 && held_movements(check_queue@[0].inputs.movements) == first_inputs
                && locks@.len() == 0,
            first_inputs == (if mode == MovementMode::TwentyG { seq![PieceMovement::SonicDrop] } else { Seq::empty() }),
            mode != MovementMode::TwentyG ==> spawned == start,
            mode == MovementMode::TwentyG ==> exists|f0: bool| drop_outcome(*board, start, spawned, f0),
            mode == MovementMode::HardDropOnly ==> forall|i: int| 0 <= i < check_queue@.len() ==> no_drop_input(#[trigger] check_queue@[i].inputs),
            mode == MovementMode::HardDropOnly ==> forall|i: int| 0 <= i < locks@.len() ==> no_drop_input(#[trigger] locks@[i].inputs),
            forall|i: int| 0 <= i < check_queue@.len() ==> entry_reaches(*board, start, #[trigger] check_queue@[i]),
            forall|i: int| 0 <= i < locks@.len() ==> lock_reaches(*board, start, #[trigger] locks@[i]),
            mode != MovementMode::TwentyG ==> forall|i: int| 0 <= i < check_queue@.len() ==> entry_timed(*board, start, #[trigger] check_queue@[i]),
            mode != MovementMode::TwentyG ==> forall|i: int| 0 <= i < locks@.len() ==> lock_timed(*board, start, #[trigger] locks@[i]),
            straight is Some ==> exists|fell: bool| drop_outcome(*board, spawned, straight->0, fell),
            straight is Some ==> straight_recorded(locks@, straight->0, first_inputs),
            forall|i: int| 0 <= i < check_queue@.len() ==> frontier_ok(*board, #[trigger] check_queue@[i], kind),
            distinct_locks(locks@),
            forall|i: int| 0 <= i < locks@.len() ==> valid_lock(*board, #[trigger] locks@[i]),
        decreases search_measure(checked@, check_queue@),
    {
        let ghost before = check_queue@;
        let placement = take_cheapest(&mut check_queue);
        proof {
            let i = choose|i: int|
                0 <= i < before.len() && placement == before[i] && check_queue@ == before.remove(i);
            assert(frontier_ok(*board, before[i], kind));
            assert forall|k: int| 0 <= k < check_queue@.len() implies frontier_ok(*board, #[trigger] check_queue@[k], kind)
                && (mode == MovementMode::HardDropOnly ==> no_drop_input(check_queue@[k].inputs))
                && entry_reaches(*board, start, check_queue@[k])
                && (mode != MovementMode::TwentyG ==> entry_timed(*board, start, check_queue@[k])) by {
                if k < i {
                    assert(check_queue@[k] == before[k]);
                } else {
                    assert(check_queue@[k] == before[k + 1]);
                }
            }
        }
        let moves = placement.inputs;
        let position = placement.location;
        proof {
            assert(entry_reaches(*board, start, placement));
        }
        let ghost px = choose|x: FallingPiece|
            #[trigger] replays(*board, start, held_movements(moves.movements), x) && (x == position || (held_movements(
                moves.movements,
            ).len() == 32 && exists|f: bool| drop_outcome(*board, x, position, f)));
        if movements_len(&moves.movements) < MAX_INPUTS {
            assert(px == position);
            attempt(board, &moves, position, &mut checked, &mut check_queue, mode, PieceMovement::Left, false, Ghost(start));
            attempt(board, &moves, position, &mut checked, &mut check_queue, mode, PieceMovement::Right, false, Ghost(start));
            attempt(board, &moves, position, &mut checked, &mut check_queue, mode, PieceMovement::Cw, false, Ghost(start));
            attempt(board, &moves, position, &mut checked, &mut check_queue, mode, PieceMovement::Ccw, false, Ghost(start));
            attempt(board, &moves, position, &mut checked, &mut check_queue, mode, PieceMovement::Flip, false, Ghost(start));
            if mode == MovementMode::ZeroG {
                attempt(board, &moves, position, &mut checked, &mut check_queue, mode, PieceMovement::Left, true, Ghost(start));
                attempt(board, &moves, position, &mut checked, &mut check_queue, mode, PieceMovement::Right, true, Ghost(start));
            }
            attempt(board, &moves, position, &mut checked, &mut check_queue, mode, PieceMovement::SonicDrop, false, Ghost(start));
        }
        let mut position = position;
        let ghost before_drop = position;
        let fell = position.sonic_drop(board);
        proof {
            crate::piece::lemma_movement_keeps_free(PieceMovement::SonicDrop, *board, before_drop, position, fell);
        }
        let ghost locks_before = locks@;
        let ghost popped_inputs = moves;
        proof {
            if px != before_drop {
                let f = choose|f: bool| drop_outcome(*board, px, before_drop, f);
                lemma_drop_rests(*board, px, before_drop, f);
                crate::piece::lemma_drop_unique(*board, before_drop, before_drop, false, position, fell);
                assert(drop_outcome(*board, px, position, f));
                let pl = Placement { inputs: popped_inputs, location: position };
                assert(replays(*board, start, held_movements(pl.inputs.movements), px));
                assert(drop_outcome(*board, px, pl.location, f));
                assert(lock_reaches(*board, start, pl));
            } else {
                assert(drop_outcome(*board, px, position, fell));
                let pl = Placement { inputs: popped_inputs, location: position };
                assert(replays(*board, start, held_movements(pl.inputs.movements), px));
                assert(drop_outcome(*board, px, pl.location, fell));
                assert(lock_reaches(*board, start, pl));
            }
            assert(lock_reaches(*board, start, Placement { inputs: popped_inputs, location: position }));
            if mode != MovementMode::TwentyG {
                let pl = Placement { inputs: popped_inputs, location: position };
                assert(entry_timed(*board, start, placement));
                assert(timed(*board, start, Seq::empty(), held_movements(pl.inputs.movements), before_drop, pl.inputs.time as int));
                assert(drop_outcome(*board, before_drop, pl.location, fell));
                assert(lock_timed(*board, start, pl));
            }
        }
        lock_check(board, position, &mut locks, moves);
        proof {
            assert forall|i: int| 0 <= i < locks@.len() implies lock_reaches(*board, start, #[trigger] locks@[i])
                && (mode != MovementMode::TwentyG ==> lock_timed(*board, start, locks@[i])) by {
                if i < locks_before.len() {
                    assert(locks@[i] == locks_before[i]);
                }
            }
            if mode == MovementMode::HardDropOnly {
                assert forall|i: int| 0 <= i < locks@.len() implies no_drop_input(#[trigger] locks@[i].inputs) by {
                    if i < locks_before.len() {
                        assert(locks@[i] == locks_before[i]);
                    } else {
                        assert(locks@[i].inputs == popped_inputs);
                    }
                }
            }
            if straight is None {
                assert(before_drop == spawned);
                assert(drop_outcome(*board, spawned, position, fell));
                if low_enough(position) {
                    let i = choose|i: int| 0 <= i < locks@.len() && lock_key(#[trigger] locks@[i].location) == lock_key(position);
                    assert(locks@[i].inputs == popped_inputs);
                }
                straight = Some(position);
                assert(drop_outcome(*board, spawned, straight->0, fell));
            } else {
                let q = straight->0;
                if low_enough(q) {
                    let i = choose|i: int| 0 <= i < locks_before.len() && lock_key(#[trigger] locks_before[i].location) == lock_key(q)
                        && locks_before[i].inputs.time == 0 && held_movements(locks_before[i].inputs.movements) == first_inputs;
                    assert(locks@[i] == locks_before[i]);
                }
            }
        }
    }
    proof {
        assert(forall|i: int| 0 <= i < locks@.len() ==> lock_reaches(*board, start, #[trigger] locks@[i]));
        let q = straight->0;
        let fell = choose|fell: bool| drop_outcome(*board, spawned, q, fell);
        if mode != MovementMode::TwentyG {
            assert(drop_outcome(*board, start, q, fell));
        } else {
            let f0 = choose|f0: bool| drop_outcome(*board, start, spawned, f0);
            assert(drop_outcome(*board, start, spawned, f0) && drop_outcome(*board, spawned, q, fell));
        }
    }
    locks
}

} // verus!

verus! {

/// Whether performing the movements `ms` in order, starting from `s`, ends
/// at `e` (a movement that does not apply leaves the piece where it is).
pub open spec fn replays(b: Board, s: FallingPiece, ms: Seq<PieceMovement>, e: FallingPiece) -> bool
    decreases ms.len(),
{
    if ms.len() == 0 {
        e == s
    } else {
        exists|q: FallingPiece, ok: bool|
            #[trigger] crate::piece::movement_outcome(ms[0], b, s, q, ok) && replays(b, q, ms.subrange(1, ms.len() as int), e)
    }
}

/// A piece that has come to rest stays put when dropped again.
pub proof fn lemma_drop_rests(b: Board, p: FallingPiece, q: FallingPiece, f: bool)
    requires
        drop_outcome(b, p, q, f),
    ensures
        drop_outcome(b, q, q, false),
{
    let k: int = q.y as int;
    assert(!obstructs(b, FallingPiece { y: k as i32, ..p }));
    assert(piece_cells(FallingPiece { y: k as i32, ..p }) == piece_cells(q));
    assert forall|j: int| q.y <= j <= q.y implies !#[trigger] obstructs(b, FallingPiece { y: j as i32, ..q }) by {
        assert(FallingPiece { y: j as i32, ..q } == q);
    }
}

/// Where a frontier entry stands relative to the spawn `s0`: its movements,
/// replayed, lead to its location, or (for a full list in 20G) to a piece
/// that falls to it.
pub open spec fn entry_reaches(b: Board, s0: FallingPiece, e: Placement) -> bool {
    exists|x: FallingPiece|
        #[trigger] replays(b, s0, held_movements(e.inputs.movements), x) && (x == e.location || (held_movements(
            e.inputs.movements,
        ).len() == 32 && exists|f: bool| drop_outcome(b, x, e.location, f)))
}

/// Whether a frontier entry's movements all apply from `s0`, lead to its
/// location, and take its recorded time.
pub open spec fn entry_timed(b: Board, s0: FallingPiece, e: Placement) -> bool {
    timed(b, s0, Seq::empty(), held_movements(e.inputs.movements), e.location, e.inputs.time as int)
}

/// Whether a placement's movements all apply from `s0`, take its recorded
/// time, and, followed by a drop, leave the piece at its location.
pub open spec fn lock_timed(b: Board, s0: FallingPiece, p: Placement) -> bool {
    exists|x: FallingPiece, f: bool|
        #![trigger timed(b, s0, Seq::empty(), held_movements(p.inputs.movements), x, p.inputs.time as int), drop_outcome(b, x, p.location, f)]
        timed(b, s0, Seq::empty(), held_movements(p.inputs.movements), x, p.inputs.time as int) && drop_outcome(b, x, p.location, f)
}

/// Whether a placement's movements, replayed from `s0` and followed by a
/// drop, leave the piece at its location.
pub open spec fn lock_reaches(b: Board, s0: FallingPiece, p: Placement) -> bool {
    exists|x: FallingPiece, f: bool|
        #![trigger replays(b, s0, held_movements(p.inputs.movements), x), drop_outcome(b, x, p.location, f)]
        replays(b, s0, held_movements(p.inputs.movements), x) && drop_outcome(b, x, p.location, f)
}

/// Replaying one more movement.
pub proof fn lemma_replays_push(b: Board, s: FallingPiece, ms: Seq<PieceMovement>, m: FallingPiece, a: PieceMovement, e: FallingPiece, ok: bool)
    requires
        replays(b, s, ms, m),
        crate::piece::movement_outcome(a, b, m, e, ok),
    ensures
        replays(b, s, ms.push(a), e),
    decreases ms.len(),
{
    let full = ms.push(a);
    if ms.len() == 0 {
        assert(full.subrange(1, full.len() as int) =~= Seq::<PieceMovement>::empty());
        assert(replays(b, e, full.subrange(1, full.len() as int), e));
        assert(crate::piece::movement_outcome(full[0], b, s, e, ok));
    } else {
        let (q, ok0) = choose|q: FallingPiece, ok0: bool|
            #[trigger] crate::piece::movement_outcome(ms[0], b, s, q, ok0) && replays(b, q, ms.subrange(1, ms.len() as int), m);
        lemma_replays_push(b, q, ms.subrange(1, ms.len() as int), m, a, e, ok);
        assert(full.subrange(1, full.len() as int) =~= ms.subrange(1, ms.len() as int).push(a));
        assert(crate::piece::movement_outcome(full[0], b, s, q, ok0));
    }
}

/// Replaying two sequences one after the other.
pub proof fn lemma_replays_concat(b: Board, s: FallingPiece, xs: Seq<PieceMovement>, m: FallingPiece, ys: Seq<PieceMovement>, e: FallingPiece)
    requires
        replays(b, s, xs, m),
        replays(b, m, ys, e),
    ensures
        replays(b, s, xs + ys, e),
    decreases ys.len(),
{
    if ys.len() == 0 {
        assert(xs + ys =~= xs);
    } else {
        let last = ys.last();
        let init = ys.drop_last();
        lemma_replays_split_last(b, m, ys, e);
        let (mid, ok) = choose|mid: FallingPiece, ok: bool|
            replays(b, m, init, mid) && #[trigger] crate::piece::movement_outcome(last, b, mid, e, ok);
        lemma_replays_concat(b, s, xs, m, init, mid);
        lemma_replays_push(b, s, xs + init, mid, last, e, ok);
        assert((xs + init).push(last) =~= xs + ys);
    }
}

/// The last movement of a replay.
pub proof fn lemma_replays_split_last(b: Board, s: FallingPiece, ms: Seq<PieceMovement>, e: FallingPiece)
    requires
        replays(b, s, ms, e),
        ms.len() > 0,
    ensures
        exists|mid: FallingPiece, ok: bool|
            replays(b, s, ms.drop_last(), mid) && #[trigger] crate::piece::movement_outcome(ms.last(), b, mid, e, ok),
    decreases ms.len(),
{
    let (q, ok0) = choose|q: FallingPiece, ok0: bool|
        #[trigger] crate::piece::movement_outcome(ms[0], b, s, q, ok0) && replays(b, q, ms.subrange(1, ms.len() as int), e);
    let rest = ms.subrange(1, ms.len() as int);
    if ms.len() == 1 {
        assert(rest.len() == 0);
        assert(ms.drop_last() =~= Seq::<PieceMovement>::empty());
        assert(replays(b, s, ms.drop_last(), s));
        assert(e == q);
        assert(ms.last() == ms[0]);
        assert(crate::piece::movement_outcome(ms.last(), b, s, e, ok0));
    } else {
        lemma_replays_split_last(b, q, rest, e);
        let (mid, ok) = choose|mid: FallingPiece, ok: bool|
            replays(b, q, rest.drop_last(), mid) && #[trigger] crate::piece::movement_outcome(rest.last(), b, mid, e, ok);
        let init = ms.drop_last();
        assert(init.subrange(1, init.len() as int) =~= rest.drop_last());
        assert(init[0] == ms[0]);
        assert(crate::piece::movement_outcome(init[0], b, s, q, ok0));
        assert(replays(b, s, init, mid));
        assert(rest.last() == ms.last());
        assert(crate::piece::movement_outcome(ms.last(), b, mid, e, ok));
    }
}

} // verus!

verus! {

/// Whether performing `ms` in order from `s`, after the earlier inputs
/// `hist`, applies every movement, ends at `e`, and takes `t` ticks by the
/// timing model of `action_cost`.
pub open spec fn timed(b: Board, s: FallingPiece, hist: Seq<PieceMovement>, ms: Seq<PieceMovement>, e: FallingPiece, t: int) -> bool
    decreases ms.len(),
{
    if ms.len() == 0 {
        e == s && t == 0
    } else {
        exists|q: FallingPiece|
            #[trigger] crate::piece::movement_outcome(ms[0], b, s, q, true) && timed(
                b,
                q,
                hist.push(ms[0]),
                ms.subrange(1, ms.len() as int),
                e,
                t - action_cost(ms[0], s.y as int, q.y as int, hist),
            )
    }
}

/// A timed replay extended by one movement that applies.
pub proof fn lemma_timed_push(
    b: Board,
    s: FallingPiece,
    h: Seq<PieceMovement>,
    xs: Seq<PieceMovement>,
    m: FallingPiece,
    t: int,
    a: PieceMovement,
    e: FallingPiece,
)
    requires
        timed(b, s, h, xs, m, t),
        crate::piece::movement_outcome(a, b, m, e, true),
    ensures
        timed(b, s, h, xs.push(a), e, t + action_cost(a, m.y as int, e.y as int, h + xs)),
    decreases xs.len(),
{
    let full = xs.push(a);
    let c = action_cost(a, m.y as int, e.y as int, h + xs);
    if xs.len() == 0 {
        assert(h + xs =~= h);
        assert(full.subrange(1, full.len() as int) =~= Seq::<PieceMovement>::empty());
        assert(timed(b, e, h.push(a), full.subrange(1, full.len() as int), e, 0));
        assert(crate::piece::movement_outcome(full[0], b, s, e, true));
    } else {
        let q = choose|q: FallingPiece|
            #[trigger] crate::piece::movement_outcome(xs[0], b, s, q, true) && timed(
                b,
                q,
                h.push(xs[0]),
                xs.subrange(1, xs.len() as int),
                m,
                t - action_cost(xs[0], s.y as int, q.y as int, h),
            );
        let c0 = action_cost(xs[0], s.y as int, q.y as int, h);
        lemma_timed_push(b, q, h.push(xs[0]), xs.subrange(1, xs.len() as int), m, t - c0, a, e);
        assert(h.push(xs[0]) + xs.subrange(1, xs.len() as int) =~= h + xs);
        assert(full.subrange(1, full.len() as int) =~= xs.subrange(1, xs.len() as int).push(a));
        assert(full[0] == xs[0]);
        assert(crate::piece::movement_outcome(full[0], b, s, q, true));
    }
}

/// Two timed replays one after the other.
pub proof fn lemma_timed_concat(
    b: Board,
    s: FallingPiece,
    h: Seq<PieceMovement>,
    xs: Seq<PieceMovement>,
    m: FallingPiece,
    t1: int,
    ys: Seq<PieceMovement>,
    e: FallingPiece,
    t2: int,
)
    requires
        timed(b, s, h, xs, m, t1),
        timed(b, m, h + xs, ys, e, t2),
    ensures
        timed(b, s, h, xs + ys, e, t1 + t2),
    decreases xs.len(),
{
    if xs.len() == 0 {
        assert(h + xs =~= h);
        assert(xs + ys =~= ys);
    } else {
        let q = choose|q: FallingPiece|
            #[trigger] crate::piece::movement_outcome(xs[0], b, s, q, true) && timed(
                b,
                q,
                h.push(xs[0]),
                xs.subrange(1, xs.len() as int),
                m,
                t1 - action_cost(xs[0], s.y as int, q.y as int, h),
            );
        let c0 = action_cost(xs[0], s.y as int, q.y as int, h);
        assert(h.push(xs[0]) + xs.subrange(1, xs.len() as int) =~= h + xs);
        lemma_timed_concat(b, q, h.push(xs[0]), xs.subrange(1, xs.len() as int), m, t1 - c0, ys, e, t2);
        let all = xs + ys;
        assert(all.subrange(1, all.len() as int) =~= xs.subrange(1, xs.len() as int) + ys);
        assert(all[0] == xs[0]);
        assert(crate::piece::movement_outcome(all[0], b, s, q, true));
    }
}

} // verus!
