use tetris_bot::board::Board;
use tetris_bot::controller::Controller;
use tetris_bot::lock_data::{PlacementKind, Statistics};
use tetris_bot::piece::{
    Direction, FallingPiece, Piece, PieceMovement, PieceState, RotationState, SpawnRule, TspinStatus, CellColor,
};

fn piece_at(kind: Piece, rot: RotationState, x: i32, y: i32) -> FallingPiece {
    FallingPiece { kind: PieceState(kind, rot), x, y, tspin: TspinStatus::NoSpin }
}

#[test]
fn rotation_states_cycle() {
    let mut r = RotationState::North;
    r.cw();
    assert_eq!(r, RotationState::East);
    r.cw();
    assert_eq!(r, RotationState::South);
    r.ccw();
    assert_eq!(r, RotationState::East);
    r.flip();
    assert_eq!(r, RotationState::West);
    let mut s = PieceState(Piece::T, RotationState::West);
    s.cw();
    assert_eq!(s, PieceState(Piece::T, RotationState::North));
}

#[test]
fn directions_turn() {
    assert_eq!(Direction::Up.cw(), Direction::Right);
    assert_eq!(Direction::Up.ccw(), Direction::Left);
    assert_eq!(Direction::Left.flip(), Direction::Right);
}

#[test]
fn piece_cells_follow_orientation() {
    assert_eq!(PieceState(Piece::T, RotationState::North).cells(), [(-1, 0), (0, 0), (1, 0), (0, 1)]);
    assert_eq!(PieceState(Piece::T, RotationState::South).cells(), [(1, 0), (0, 0), (-1, 0), (0, -1)]);
    assert_eq!(PieceState(Piece::I, RotationState::East).cells(), [(0, 1), (0, 0), (0, -1), (0, -2)]);
    assert_eq!(PieceState(Piece::Z, RotationState::West).cells(), [(-1, -1), (-1, 0), (0, 0), (0, 1)]);
    let p = piece_at(Piece::O, RotationState::North, 4, 19);
    assert_eq!(p.cells(), [(4, 19), (5, 19), (4, 20), (5, 20)]);
}

#[test]
fn connections_turn_with_the_piece() {
    let north = PieceState(Piece::T, RotationState::North).cells_with_connections();
    assert!(north[1].2.up && north[1].2.left && north[1].2.right && !north[1].2.down);
    let east = PieceState(Piece::T, RotationState::East).cells_with_connections();
    assert!(east[1].2.right && east[1].2.up && east[1].2.down && !east[1].2.left);
    let p = piece_at(Piece::I, RotationState::North, 3, 5);
    let c = p.cells_with_connections();
    assert_eq!((c[0].0, c[0].1), (2, 5));
    assert!(c[0].2.right && !c[0].2.left);
}

#[test]
fn piece_names_and_colors() {
    assert_eq!(Piece::S.to_char(), 'S');
    assert_eq!(Piece::L.color(), CellColor::L);
    assert_eq!(Piece::from_index(Piece::J.index()), Piece::J);
}

#[test]
fn shift_stops_at_walls() {
    let b = Board::new();
    let mut p = piece_at(Piece::O, RotationState::North, 0, 5);
    assert!(!p.shift(&b, -1, 0));
    assert_eq!(p.x, 0);
    p.tspin = TspinStatus::Full;
    assert!(p.shift(&b, 1, 0));
    assert_eq!(p.x, 1);
    assert_eq!(p.tspin, TspinStatus::NoSpin);
}

#[test]
fn sonic_drop_lands_on_stack() {
    let mut b = Board::new();
    b.set_cell(4, 0);
    b.set_cell(4, 1);
    let mut p = piece_at(Piece::O, RotationState::North, 4, 19);
    assert!(p.sonic_drop(&b));
    assert_eq!(p.y, 2);
    assert!(!p.sonic_drop(&b));
    assert_eq!(b.column_heights(), vec![0, 0, 0, 0, 2, 0, 0, 0, 0, 0]);
    assert_eq!(b.height_sum(), 2);
}

#[test]
fn rotation_kicks_off_the_wall() {
    let b = Board::new();
    let mut p = piece_at(Piece::I, RotationState::East, 0, 10);
    assert!(p.cw(&b));
    assert_eq!(p.kind.1, RotationState::South);
    // South cells are (1,0),(0,0),(-1,0),(-2,0): the first kick that fits moves right by two.
    assert_eq!(p.x, 2);
    assert_eq!(p.y, 10);
}

/// A T-slot: row 0 open at column 4, row 1 open at columns 3 to 5, and an
/// overhang at (3, 2).
fn tslot_board() -> Board {
    let mut b = Board::new();
    for x in 0..10 {
        if x != 4 {
            b.set_cell(x, 0);
        }
        if x < 3 || x > 5 {
            b.set_cell(x, 1);
        }
    }
    b.set_cell(3, 2);
    b
}

#[test]
fn immobile_rotation_is_a_tspin() {
    let mut b = tslot_board();
    let mut p = piece_at(Piece::T, RotationState::South, 4, 1);
    assert!(!b.obstructed(&p));
    assert!(p.memeflip(&b));
    assert_eq!(p.tspin, TspinStatus::Full);
    let lock = b.lock_piece(p);
    assert_eq!(lock.placement_kind, PlacementKind::Tspin2);
    assert_eq!(lock.cleared_lines.len(), 2);
    assert_eq!(lock.garbage_sent, 4);
}

#[test]
fn mobile_rotation_is_no_tspin() {
    let b = Board::new();
    let mut p = piece_at(Piece::T, RotationState::North, 4, 10);
    assert!(p.cw(&b));
    assert_eq!(p.tspin, TspinStatus::NoSpin);
}

#[test]
fn movement_apply_dispatches() {
    let b = Board::new();
    let mut p = piece_at(Piece::T, RotationState::North, 4, 19);
    assert!(PieceMovement::Left.apply(&mut p, &b));
    assert_eq!(p.x, 3);
    assert!(PieceMovement::Flip.apply(&mut p, &b));
    assert_eq!(p.kind.1, RotationState::South);
    assert!(PieceMovement::SonicDrop.apply(&mut p, &b));
    assert_eq!(p.y, 1);
}

#[test]
fn memeflip_keeps_state() {
    let b = Board::new();
    let mut p = piece_at(Piece::T, RotationState::North, 4, 19);
    assert!(p.memeflip(&b));
    assert_eq!(p.kind, PieceState(Piece::T, RotationState::North));
    assert_eq!((p.x, p.y), (4, 19));
}

#[test]
fn same_location_compares_cells() {
    let a = piece_at(Piece::I, RotationState::North, 4, 0);
    let b = piece_at(Piece::I, RotationState::South, 5, 0);
    assert!(a.same_location(&b));
    let c = piece_at(Piece::I, RotationState::North, 5, 0);
    assert!(!a.same_location(&c));
}

#[test]
fn spawn_rules() {
    let mut b = Board::new();
    let s = SpawnRule::Row19Or20.spawn(Piece::T, &b).unwrap();
    assert_eq!((s.x, s.y), (4, 19));
    let s = SpawnRule::Row21AndFall.spawn(Piece::T, &b).unwrap();
    assert_eq!(s.y, 20);
    let s = SpawnRule::Asc.spawn(Piece::T, &b).unwrap();
    assert_eq!(s.y, 22);
    b.set_cell(4, 19);
    let s = SpawnRule::Row19Or20.spawn(Piece::T, &b).unwrap();
    assert_eq!(s.y, 20);
    b.set_cell(4, 20);
    assert!(SpawnRule::Row19Or20.spawn(Piece::T, &b).is_none());
}

#[test]
fn placement_kind_tables() {
    assert_eq!(PlacementKind::Clear4.garbage(), 4);
    assert_eq!(PlacementKind::Tspin3.garbage(), 6);
    assert_eq!(PlacementKind::Clear2.garbage(), 1);
    assert!(PlacementKind::Tspin.is_hard());
    assert!(!PlacementKind::Clear3.is_hard());
    assert!(!PlacementKind::Tspin.is_clear());
    assert!(PlacementKind::Clear1.is_clear());
    assert_eq!(PlacementKind::get(2, TspinStatus::Full), PlacementKind::Tspin2);
    assert_eq!(PlacementKind::get(0, TspinStatus::NoSpin), PlacementKind::NoClear);
    assert_eq!(PlacementKind::Tspin1.name(), "T-Spin Single");
    assert_eq!(PlacementKind::NoClear.name(), "");
    assert_eq!(PlacementKind::Tspin2.short_name(), "TSD");
    assert_eq!(PlacementKind::NoClear.short_name(), "...");
    assert_eq!(PlacementKind::default(), PlacementKind::NoClear);
}

/// A board whose bottom row is filled except for column 0.
fn well_board() -> Board {
    let mut b = Board::new();
    for x in 1..10 {
        b.set_cell(x, 0);
    }
    b
}

#[test]
fn vertical_bar_clears_one_row() {
    let mut b = well_board();
    let mut p = SpawnRule::Row19Or20.spawn(Piece::I, &b).unwrap();
    assert!(p.cw(&b));
    while p.shift(&b, -1, 0) {}
    assert_eq!(p.cells()[0].0, 0);
    assert!(p.sonic_drop(&b));
    let lock = b.lock_piece(p);
    assert_eq!(lock.cleared_lines.len(), 1);
    assert_eq!(lock.cleared_lines[0], 0);
    assert_eq!(lock.placement_kind, PlacementKind::Clear1);
    assert!(!lock.b2b);
    assert!(!lock.perfect_clear);
    assert!(!lock.locked_out);
    assert_eq!(lock.combo, Some(0));
    assert_eq!(lock.garbage_sent, 0);
    // Three cells of the bar remain in column 0, rows 0 to 2.
    assert_eq!(b.column_heights(), vec![3, 0, 0, 0, 0, 0, 0, 0, 0, 0]);
}

#[test]
fn horizontal_lock_clears_nothing() {
    let mut b = Board::new();
    let mut p = SpawnRule::Row19Or20.spawn(Piece::I, &b).unwrap();
    p.sonic_drop(&b);
    let lock = b.lock_piece(p);
    assert_eq!(lock.placement_kind, PlacementKind::NoClear);
    assert_eq!(lock.cleared_lines.len(), 0);
    assert_eq!(lock.combo, None);
    assert_eq!(b.column_heights(), vec![0, 0, 0, 1, 1, 1, 1, 0, 0, 0]);
}

#[test]
fn perfect_clear_is_reported() {
    let mut b = Board::new();
    for x in 4..10 {
        b.set_cell(x, 0);
    }
    let mut p = SpawnRule::Row19Or20.spawn(Piece::I, &b).unwrap();
    p.x = 1;
    p.sonic_drop(&b);
    let lock = b.lock_piece(p);
    assert!(lock.perfect_clear);
    assert_eq!(lock.garbage_sent, 10);
    assert_eq!(b.height_sum(), 0);
}

#[test]
fn lock_above_visible_field_locks_out() {
    let mut b = Board::new();
    let p = piece_at(Piece::O, RotationState::North, 4, 30);
    let lock = b.lock_piece(p);
    assert!(lock.locked_out);
}

#[test]
fn statistics_count_locks() {
    let mut b = well_board();
    let mut p = SpawnRule::Row19Or20.spawn(Piece::I, &b).unwrap();
    p.cw(&b);
    while p.shift(&b, -1, 0) {}
    p.sonic_drop(&b);
    let lock = b.lock_piece(p);
    let mut s = Statistics::default();
    s.update(&lock);
    assert_eq!(s.pieces, 1);
    assert_eq!(s.lines, 1);
    assert_eq!(s.singles, 1);
    assert_eq!(s.max_combo, 0);
}

#[test]
fn queue_and_bag() {
    let mut b = Board::new();
    assert_eq!(b.get_next_piece(), Err(vec![Piece::I, Piece::O, Piece::T, Piece::L, Piece::J, Piece::S, Piece::Z]));
    b.add_next_piece(Piece::T);
    b.add_next_piece(Piece::I);
    assert_eq!(b.get_next_piece(), Ok(Piece::T));
    assert_eq!(b.get_next_next_piece(), Some(Piece::I));
    assert_eq!(b.advance_queue(), Some(Piece::T));
    assert_eq!(b.advance_queue(), Some(Piece::I));
    assert_eq!(b.advance_queue(), None);
    assert_eq!(b.get_next_piece(), Err(vec![Piece::O, Piece::L, Piece::J, Piece::S, Piece::Z]));
    assert_eq!(b.hold(Piece::S), None);
    assert_eq!(b.hold(Piece::Z), Some(Piece::S));
    assert_eq!(b.hold_piece(), Some(Piece::Z));
}

#[test]
fn emptied_bag_refills() {
    let mut b = Board::new();
    for p in [Piece::I, Piece::O, Piece::T, Piece::L, Piece::J, Piece::S, Piece::Z] {
        b.add_next_piece(p);
    }
    for _ in 0..7 {
        b.advance_queue();
    }
    assert_eq!(b.get_next_piece().unwrap_err().len(), 7);
}

#[test]
fn controller_bits() {
    let c = Controller { left: true, hard_drop: true, ..Controller::default() };
    assert_eq!(c.to_bits(), 129);
    assert_eq!(Controller::from_bits(129), c);
    let all = Controller {
        left: true,
        right: true,
        rotate_right: true,
        rotate_left: true,
        rotate_180: true,
        meme_flip: true,
        soft_drop: true,
        hard_drop: true,
        hold: true,
    };
    assert_eq!(all.to_bits(), 511);
    assert_eq!(Controller::from_bits(all.to_bits() as u64), all);
    assert_eq!(Controller::from_bits(32).hold, true);
    assert_eq!(Controller::from_bits(32).soft_drop, false);
}
