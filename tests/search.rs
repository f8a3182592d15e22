use std::collections::HashSet;
use tetris_bot::board::Board;
use tetris_bot::evaluation::{Eval, Evaluation, Evaluator, Options, SearchOptions};
use tetris_bot::lock_data::LockResult;
use tetris_bot::moves::{find_moves, MovementMode, Placement};
use tetris_bot::piece::{Piece, PieceMovement, SpawnRule};
use tetris_bot::tree::{best_eval, pick_weighted, weight_of, Tree};

fn footprint(p: &Placement) -> Vec<(i32, i32)> {
    let mut c = p.location.cells().to_vec();
    c.sort();
    c
}

#[test]
fn square_on_empty_board_has_nine_columns() {
    let b = Board::new();
    let spawned = SpawnRule::Row19Or20.spawn(Piece::O, &b).unwrap();
    let moves = find_moves(&b, spawned, MovementMode::ZeroG);
    assert_eq!(moves.len(), 9);
    let mut columns: Vec<i32> = moves.iter().map(|m| footprint(m)[0].0).collect();
    columns.sort();
    assert_eq!(columns, (0..9).collect::<Vec<i32>>());
    for m in &moves {
        assert!(m.location.cells().iter().all(|&(_, y)| y == 0 || y == 1));
        assert!(m.inputs.movements.len() <= 4);
    }
    let straight = moves.iter().find(|m| footprint(m)[0].0 == 4).unwrap();
    assert_eq!(straight.inputs.time, 0);
    assert!(straight.inputs.movements.is_empty());
    assert!(moves.iter().all(|m| m.inputs.time >= straight.inputs.time));
    let far_left = moves.iter().find(|m| footprint(m)[0].0 == 0).unwrap();
    assert!(far_left.inputs.time > 0);
}

#[test]
fn results_have_distinct_footprints() {
    let b = Board::new();
    for piece in [Piece::I, Piece::T, Piece::S, Piece::L] {
        let spawned = SpawnRule::Row19Or20.spawn(piece, &b).unwrap();
        for mode in [MovementMode::ZeroG, MovementMode::ZeroGComplete, MovementMode::TwentyG, MovementMode::HardDropOnly] {
            let moves = find_moves(&b, spawned, mode);
            assert!(!moves.is_empty());
            let keys: HashSet<(Vec<(i32, i32)>, bool)> = moves
                .iter()
                .map(|m| (footprint(m), m.location.tspin == tetris_bot::piece::TspinStatus::Full))
                .collect();
            assert_eq!(keys.len(), moves.len());
            for m in &moves {
                assert!(!b.obstructed(&m.location));
                assert!(m.inputs.movements.len() <= 32);
            }
        }
    }
}

#[test]
fn search_is_repeatable() {
    let mut b = Board::new();
    b.set_cell(0, 0);
    b.set_cell(1, 0);
    b.set_cell(5, 0);
    let spawned = SpawnRule::Row19Or20.spawn(Piece::T, &b).unwrap();
    let a = find_moves(&b, spawned, MovementMode::ZeroG);
    let c = find_moves(&b, spawned, MovementMode::ZeroG);
    assert_eq!(a.len(), c.len());
    for (x, y) in a.iter().zip(c.iter()) {
        assert_eq!(x.location, y.location);
        assert_eq!(x.inputs.time, y.inputs.time);
        assert_eq!(x.inputs.movements.as_slice(), y.inputs.movements.as_slice());
    }
}

#[test]
fn twenty_gravity_starts_grounded() {
    let b = Board::new();
    let spawned = SpawnRule::Row19Or20.spawn(Piece::T, &b).unwrap();
    let moves = find_moves(&b, spawned, MovementMode::TwentyG);
    for m in &moves {
        assert_eq!(m.inputs.movements[0], PieceMovement::SonicDrop);
    }
}

struct Flat;

impl Evaluator for Flat {
    fn evaluate(&self, lock: &LockResult, board: &Board, move_time: u32, _piece: Piece) -> Evaluation {
        Evaluation { aggressive: lock.garbage_sent as i32 * 10 - move_time as i32, defensive: -board.height_sum() }
    }

    fn search_options(&self) -> SearchOptions {
        SearchOptions::new(1, 2, 1000).unwrap()
    }

    fn rank(&self, eval: Eval, height: i32) -> i64 {
        eval.aggressive + eval.defensive - height as i64
    }
}

fn options(use_hold: bool) -> Options {
    Options { mode: MovementMode::ZeroG, spawn_rule: SpawnRule::Row19Or20, use_hold, speculate: true }
}

#[test]
fn search_options_need_a_denominator() {
    assert!(SearchOptions::new(1, 0, 0).is_none());
    let o = SearchOptions::new(3, 4, 50).unwrap();
    assert_eq!(o.gamma(), (3, 4));
    assert_eq!(o.dead_penalty(), 50);
}

#[test]
fn discount_rounds_toward_zero() {
    let o = SearchOptions::new(1, 2, 0).unwrap();
    let raw = Evaluation { aggressive: 10, defensive: -10 };
    let e = Eval { aggressive: -7, defensive: 7 }.discount_onto(raw, o);
    assert_eq!(e, Eval { aggressive: 7, defensive: -7 });
}

#[test]
fn exploration_weights() {
    assert_eq!(weight_of(0, 0), 1);
    assert_eq!(weight_of(10, 0), 101);
    assert_eq!(weight_of(10, 3), 26);
    assert_eq!(pick_weighted(&vec![5]), 0);
    for _ in 0..20 {
        assert!(pick_weighted(&vec![1, 1, 1]) < 3);
    }
    assert_eq!(pick_weighted(&vec![u128::MAX, u128::MAX]), 0);
}

#[test]
fn known_root_expands_to_children() {
    let mut b = Board::new();
    b.add_next_piece(Piece::T);
    b.add_next_piece(Piece::I);
    let mut t = Tree::starting_board(b);
    assert!(t.can_extend(options(false)));
    assert!(!t.extend(options(false), &Flat));
    let moves = t.get_moves_and_evaluations();
    assert!(!moves.is_empty());
    let kind = t.kind.as_ref().unwrap();
    match kind {
        tetris_bot::tree::TreeKind::Known(children) => {
            let best = best_eval(children).unwrap();
            for c in children {
                assert!(c.tree.evaluation.aggressive <= best.aggressive);
                assert!(c.tree.evaluation.defensive <= best.defensive);
            }
            let o = Flat.search_options();
            assert_eq!(t.evaluation, best.discount_onto(t.raw_eval, o));
        }
        _ => panic!("expected a known expansion"),
    }
    for _ in 0..10 {
        if !t.can_extend(options(false)) {
            break;
        }
        t.extend(options(false), &Flat);
    }
    let mut plan = Vec::new();
    t.get_plan(&mut plan);
    assert!(!plan.is_empty());
    assert_eq!(plan[0].0.location, t.get_moves_and_evaluations()[0].0);
    let first = t.get_moves_and_evaluations()[0].0;
    let child = t.into_best_child().ok().unwrap();
    assert_eq!(child.mv.location, first);
}

#[test]
fn obstructed_spawn_is_death() {
    let mut b = Board::new();
    b.set_cell(4, 20);
    b.set_cell(4, 19);
    b.add_next_piece(Piece::T);
    let mut t = Tree::starting_board(b);
    assert!(t.extend(options(false), &Flat));
    assert!(t.into_best_child().is_err());
}

#[test]
fn unexpanded_tree_has_no_best_child() {
    let t = Tree::starting_board(Board::new());
    assert!(t.get_moves_and_evaluations().is_empty());
    assert!(t.into_best_child().is_err());
}

#[test]
fn revealed_piece_keeps_its_speculated_children() {
    // Hold is known, the next piece is hidden: the node speculates.
    let mut b = Board::new();
    b.hold(Piece::T);
    let mut speculated = Tree::starting_board(b);
    assert!(!speculated.extend(options(true), &Flat));
    assert!(speculated.get_moves_and_evaluations().is_empty());
    let o = Flat.search_options();
    assert!(!speculated.add_next_piece(Piece::I, o));
    let revealed = speculated.get_moves_and_evaluations();

    // The same position with the piece known from the start.
    let mut b = Board::new();
    b.hold(Piece::T);
    b.add_next_piece(Piece::I);
    let mut direct = Tree::starting_board(b);
    assert!(!direct.extend(options(true), &Flat));
    let expected = direct.get_moves_and_evaluations();

    assert_eq!(revealed.len(), expected.len());
    for (r, e) in revealed.iter().zip(expected.iter()) {
        assert_eq!(r.0, e.0);
        assert_eq!(r.1, e.1);
    }
}

#[test]
fn speculation_can_be_disabled() {
    let mut b = Board::new();
    b.hold(Piece::T);
    let mut t = Tree::starting_board(b);
    let opts = Options { speculate: false, ..options(true) };
    assert!(t.can_extend(opts));
    assert!(!t.extend(opts, &Flat));
    assert!(t.kind.is_none());
    assert_eq!(t.depth, 0);
}

#[test]
fn unknown_queue_without_hold_cannot_extend() {
    let t = Tree::starting_board(Board::new());
    assert!(!t.can_extend(options(false)));
    assert!(!t.can_extend(options(true)));
    let mut b = Board::new();
    b.hold(Piece::T);
    assert!(Tree::starting_board(b).can_extend(options(true)));
}

#[test]
fn plan_follows_first_children() {
    let mut b = Board::new();
    b.add_next_piece(Piece::T);
    b.add_next_piece(Piece::I);
    b.add_next_piece(Piece::O);
    let mut t = Tree::starting_board(b);
    for _ in 0..30 {
        if !t.can_extend(options(false)) {
            break;
        }
        t.extend(options(false), &Flat);
    }
    let mut plan = Vec::new();
    t.get_plan(&mut plan);
    assert!(plan.len() >= 1 && plan.len() <= 3);
    assert_eq!(plan[0].0.location, t.get_moves_and_evaluations()[0].0);
}

#[test]
fn duplicates_keep_contents() {
    let b = Board::new();
    let spawned = SpawnRule::Row19Or20.spawn(Piece::J, &b).unwrap();
    let moves = find_moves(&b, spawned, MovementMode::ZeroG);
    let longest = moves.iter().max_by_key(|m| m.inputs.movements.len()).unwrap();
    assert!(longest.inputs.movements.len() >= 2);
    let copy = longest.duplicate();
    assert_eq!(copy.inputs.movements.as_slice(), longest.inputs.movements.as_slice());
    assert_eq!(copy.inputs.time, longest.inputs.time);
    assert_eq!(copy.location, longest.location);

    let mut board = Board::new();
    for x in 1..10 {
        board.set_cell(x, 0);
    }
    let mut p = SpawnRule::Row19Or20.spawn(Piece::I, &board).unwrap();
    p.cw(&board);
    while p.shift(&board, -1, 0) {}
    p.sonic_drop(&board);
    let lock = board.lock_piece(p);
    let lock_copy = lock.duplicate();
    assert_eq!(lock_copy.cleared_lines.as_slice(), &[0]);
    assert_eq!(lock_copy.placement_kind, lock.placement_kind);
}

#[test]
fn repeated_taps_cost_extra() {
    let b = Board::new();
    let spawned = SpawnRule::Row19Or20.spawn(Piece::O, &b).unwrap();
    let moves = find_moves(&b, spawned, MovementMode::ZeroGComplete);
    // Without held-direction slides, two columns to the right takes two taps of Right:
    // one tick, then one tick plus one for pressing the same button again.
    let two_right = moves.iter().find(|m| footprint(m)[0].0 == 6).unwrap();
    assert_eq!(two_right.inputs.time, 3);
}

/// The cheapest (time, inputs) found by trying every sequence of up to
/// `depth` successful actions, for each resting footprint and T-spin status.
fn brute_force_costs(
    b: &Board,
    spawned: tetris_bot::piece::FallingPiece,
    depth: usize,
) -> std::collections::HashMap<(Vec<(i32, i32)>, bool), (u32, usize)> {
    let actions = [
        PieceMovement::Left,
        PieceMovement::Right,
        PieceMovement::Cw,
        PieceMovement::Ccw,
        PieceMovement::Flip,
        PieceMovement::SonicDrop,
    ];
    let mut best = std::collections::HashMap::new();
    let mut stack = vec![(spawned, Vec::<PieceMovement>::new(), 0u32)];
    while let Some((piece, seq, time)) = stack.pop() {
        let mut rest = piece;
        rest.sonic_drop(b);
        let mut cells = rest.cells().to_vec();
        if cells.iter().any(|&(_, y)| y <= 23) {
            cells.sort();
            let key = (cells, rest.tspin == tetris_bot::piece::TspinStatus::Full);
            let cost = (time, seq.len());
            let entry = best.entry(key).or_insert(cost);
            if cost < *entry {
                *entry = cost;
            }
        }
        if seq.len() == depth {
            continue;
        }
        for &a in &actions {
            let mut next = piece;
            let y = next.y;
            if a.apply(&mut next, b) {
                let mut t = time + if a == PieceMovement::SonicDrop { 2 * (y - next.y) as u32 } else { 1 };
                if seq.last() == Some(&a) {
                    t += 1;
                }
                let mut s = seq.clone();
                s.push(a);
                stack.push((next, s, t));
            }
        }
    }
    best
}

/// Sequences of up to two actions never beat the recorded inputs. (Longer
/// ones can: the extra tick for repeating an action depends on the path, and
/// a pose is only searched from the first path that reached it.)
#[test]
fn no_short_sequence_beats_the_recorded_one() {
    let mut b = Board::new();
    b.set_cell(2, 0);
    b.set_cell(7, 0);
    b.set_cell(7, 1);
    for piece in [Piece::O, Piece::T, Piece::S] {
        let spawned = SpawnRule::Row19Or20.spawn(piece, &b).unwrap();
        let found = find_moves(&b, spawned, MovementMode::ZeroGComplete);
        let brute = brute_force_costs(&b, spawned, 2);
        for m in &found {
            let key = (footprint(m), m.location.tspin == tetris_bot::piece::TspinStatus::Full);
            if let Some(&cheapest) = brute.get(&key) {
                assert!(
                    (m.inputs.time, m.inputs.movements.len()) <= cheapest,
                    "{:?} {:?} {:?} {:?} {:?}",
                    piece,
                    key,
                    m.inputs.movements.as_slice(),
                    m.inputs.time,
                    cheapest
                );
            }
        }
    }
}

#[test]
fn recorded_inputs_replay_to_the_location() {
    let mut b = Board::new();
    b.set_cell(3, 0);
    b.set_cell(3, 1);
    b.set_cell(8, 0);
    for mode in [MovementMode::ZeroG, MovementMode::ZeroGComplete, MovementMode::TwentyG, MovementMode::HardDropOnly] {
        let spawned = SpawnRule::Row19Or20.spawn(Piece::T, &b).unwrap();
        for m in find_moves(&b, spawned, mode) {
            let mut p = spawned;
            for &a in m.inputs.movements.iter() {
                a.apply(&mut p, &b);
            }
            p.sonic_drop(&b);
            assert_eq!(p, m.location);
        }
    }
}

#[test]
fn hard_drop_only_records_no_drops() {
    let b = Board::new();
    let spawned = SpawnRule::Row19Or20.spawn(Piece::L, &b).unwrap();
    for m in find_moves(&b, spawned, MovementMode::HardDropOnly) {
        assert!(!m.inputs.movements.contains(&PieceMovement::SonicDrop));
    }
}

#[test]
fn vertical_bar_child_clears_a_line() {
    let mut b = Board::new();
    for x in 0..9 {
        b.set_cell(x, 0);
    }
    b.add_next_piece(Piece::I);
    let mut t = Tree::starting_board(b);
    assert!(!t.extend(options(false), &Flat));
    let kind = t.kind.as_ref().unwrap();
    let children = match kind {
        tetris_bot::tree::TreeKind::Known(children) => children,
        _ => panic!("expected a known expansion"),
    };
    let bar = children
        .iter()
        .find(|c| {
            let mut cells = c.mv.location.cells().to_vec();
            cells.sort();
            cells == vec![(9, 0), (9, 1), (9, 2), (9, 3)]
        })
        .unwrap();
    assert!(!bar.hold);
    assert_eq!(bar.lock.cleared_lines.as_slice(), &[0]);
    assert_eq!(bar.lock.placement_kind, tetris_bot::lock_data::PlacementKind::Clear1);
}
