use vstd::prelude::*;
use crate::board::{Board, occupied_cell};

verus! {

/// The seven tetromino kinds.
#[derive(Copy, Clone, Debug, Hash, PartialEq, Eq, Structural)]
pub enum Piece {
    I,
    O,
    T,
    L,
    J,
    S,
    Z,
}

/// The four orientations of a piece.
#[derive(Copy, Clone, Debug, Hash, PartialEq, Eq, Structural)]
pub enum RotationState {
    North,
    South,
    East,
    West,
}

/// A piece kind together with its orientation.
#[derive(Copy, Clone, Debug, Hash, PartialEq, Eq, Structural)]
pub struct PieceState(pub Piece, pub RotationState);

/// Whether the last successful action was a rotation into an immobile spot.
#[derive(Copy, Clone, Debug, Hash, PartialEq, Eq, Structural)]
pub enum TspinStatus {
    NoSpin,
    Full,
}

/// Which kick table a rotation uses.
#[derive(Copy, Clone, Debug, PartialEq, Eq, Structural)]
pub enum RotateDirection {
    Cw,
    Ccw,
    Flip,
    Meme,
    Zero,
}

/// The colour of a board cell.
#[derive(Copy, Clone, Debug, Hash, PartialEq, Eq, Structural)]
pub enum CellColor {
    I,
    O,
    T,
    L,
    J,
    S,
    Z,
    Garbage,
    Unclearable,
    Empty,
}

/// A cardinal direction on the board.
#[derive(Copy, Clone, Debug, Hash, PartialEq, Eq, Structural)]
pub enum Direction {
    Up,
    Down,
    Left,
    Right,
}

/// The index of a piece kind, in declaration order.
pub open spec fn piece_index(p: Piece) -> int {
    match p {
        Piece::I => 0,
        Piece::O => 1,
        Piece::T => 2,
        Piece::L => 3,
        Piece::J => 4,
        Piece::S => 5,
        Piece::Z => 6,
    }
}

/// The piece kind with a given index.
pub open spec fn piece_of_index(i: int) -> Piece {
    if i == 0 {
        Piece::I
    } else if i == 1 {
        Piece::O
    } else if i == 2 {
        Piece::T
    } else if i == 3 {
        Piece::L
    } else if i == 4 {
        Piece::J
    } else if i == 5 {
        Piece::S
    } else {
        Piece::Z
    }
}

pub open spec fn rotation_cw(r: RotationState) -> RotationState {
    match r {
        RotationState::North => RotationState::East,
        RotationState::East => RotationState::South,
        RotationState::South => RotationState::West,
        RotationState::West => RotationState::North,
    }
}

pub open spec fn rotation_ccw(r: RotationState) -> RotationState {
    match r {
        RotationState::North => RotationState::West,
        RotationState::West => RotationState::South,
        RotationState::South => RotationState::East,
        RotationState::East => RotationState::North,
    }
}

pub open spec fn rotation_flip(r: RotationState) -> RotationState {
    match r {
        RotationState::North => RotationState::South,
        RotationState::East => RotationState::West,
        RotationState::South => RotationState::North,
        RotationState::West => RotationState::East,
    }
}

pub open spec fn direction_cw(d: Direction) -> Direction {
    match d {
        Direction::Up => Direction::Right,
        Direction::Right => Direction::Down,
        Direction::Down => Direction::Left,
        Direction::Left => Direction::Up,
    }
}

pub open spec fn direction_ccw(d: Direction) -> Direction {
    match d {
        Direction::Up => Direction::Left,
        Direction::Right => Direction::Up,
        Direction::Down => Direction::Right,
        Direction::Left => Direction::Down,
    }
}

pub open spec fn direction_flip(d: Direction) -> Direction {
    match d {
        Direction::Up => Direction::Down,
        Direction::Right => Direction::Left,
        Direction::Down => Direction::Up,
        Direction::Left => Direction::Right,
    }
}

/// The four cells of a kind in its North orientation, relative to its anchor.
pub open spec fn base_cells(p: Piece) -> Seq<(int, int)> {
    match p {
        Piece::I => seq![(-1, 0), (0, 0), (1, 0), (2, 0)],
        Piece::O => seq![(0, 0), (1, 0), (0, 1), (1, 1)],
        Piece::T => seq![(-1, 0), (0, 0), (1, 0), (0, 1)],
        Piece::L => seq![(-1, 0), (0, 0), (1, 0), (1, 1)],
        Piece::J => seq![(-1, 0), (0, 0), (1, 0), (-1, 1)],
        Piece::S => seq![(-1, 0), (0, 0), (0, 1), (1, 1)],
        Piece::Z => seq![(-1, 1), (0, 1), (0, 0), (1, 0)],
    }
}

/// A cell offset turned into the given orientation.
pub open spec fn oriented(c: (int, int), r: RotationState) -> (int, int) {
    match r {
        RotationState::North => (c.0, c.1),
        RotationState::South => (-c.0, -c.1),
        RotationState::East => (c.1, -c.0),
        RotationState::West => (-c.1, c.0),
    }
}

/// The four cells of a piece state relative to its anchor.
pub open spec fn state_cells(s: PieceState) -> Seq<(int, int)> {
    base_cells(s.0).map_values(|c: (int, int)| oriented(c, s.1))
}

/// The cells of a pair array, as integers.
pub open spec fn cells_view(a: [(i32, i32); 4]) -> Seq<(int, int)> {
    a@.map_values(|c: (i32, i32)| (c.0 as int, c.1 as int))
}

/// Every offset of every piece state lies within two cells of the anchor.
pub proof fn lemma_offsets_small(s: PieceState, i: int)
    requires
        0 <= i < 4,
    ensures
        state_cells(s).len() == 4,
        -2 <= state_cells(s)[i].0 <= 2,
        -2 <= state_cells(s)[i].1 <= 2,
{
    reveal_with_fuel(Seq::map_values, 1);
}

impl Piece {
    /// The letter that names this piece.
    pub fn to_char(self) -> (r: char)
        ensures
            r == piece_char(self),
    {
        match self {
            Piece::I => 'I',
            Piece::T => 'T',
            Piece::O => 'O',
            Piece::L => 'L',
            Piece::J => 'J',
            Piece::S => 'S',
            Piece::Z => 'Z',
        }
    }

    /// The cell colour this piece leaves on the board.
    pub fn color(self) -> (r: CellColor)
        ensures
            r == piece_color(self),
    {
        match self {
            Piece::I => CellColor::I,
            Piece::T => CellColor::T,
            Piece::O => CellColor::O,
            Piece::L => CellColor::L,
            Piece::J => CellColor::J,
            Piece::S => CellColor::S,
            Piece::Z => CellColor::Z,
        }
    }

    /// The index of this kind, in declaration order.
    pub fn index(self) -> (r: usize)
        ensures
            r as int == piece_index(self),
            r < 7,
    {
        match self {
            Piece::I => 0,
            Piece::O => 1,
            Piece::T => 2,
            Piece::L => 3,
            Piece::J => 4,
            Piece::S => 5,
            Piece::Z => 6,
        }
    }

    /// The kind drawn by a uniform draw `n` from `0..7`, in the order
    /// I, T, O, L, J, S, Z.
    pub fn from_draw(n: u32) -> (r: Piece)
        requires
            n < 7,
        ensures
            r == seq![Piece::I, Piece::T, Piece::O, Piece::L, Piece::J, Piece::S, Piece::Z][n as int],
    {
        if n == 0 {
            Piece::I
        } else if n == 1 {
            Piece::T
        } else if n == 2 {
            Piece::O
        } else if n == 3 {
            Piece::L
        } else if n == 4 {
            Piece::J
        } else if n == 5 {
            Piece::S
        } else {
            Piece::Z
        }
    }

    /// The kind with the given index.
    pub fn from_index(i: usize) -> (r: Piece)
        requires
            i < 7,
        ensures
            r == piece_of_index(i as int),
            piece_index(r) == i,
    {
        if i == 0 {
            Piece::I
        } else if i == 1 {
            Piece::O
        } else if i == 2 {
            Piece::T
        } else if i == 3 {
            Piece::L
        } else if i == 4 {
            Piece::J
        } else if i == 5 {
            Piece::S
        } else {
            Piece::Z
        }
    }
}

pub open spec fn piece_char(p: Piece) -> char {
    match p {
        Piece::I => 'I',
        Piece::T => 'T',
        Piece::O => 'O',
        Piece::L => 'L',
        Piece::J => 'J',
        Piece::S => 'S',
        Piece::Z => 'Z',
    }
}

pub open spec fn piece_color(p: Piece) -> CellColor {
    match p {
        Piece::I => CellColor::I,
        Piece::T => CellColor::T,
        Piece::O => CellColor::O,
        Piece::L => CellColor::L,
        Piece::J => CellColor::J,
        Piece::S => CellColor::S,
        Piece::Z => CellColor::Z,
    }
}

impl RotationState {
    /// Turns a quarter clockwise.
    pub fn cw(&mut self)
        ensures
            *final(self) == rotation_cw(*old(self)),
    {
        match *self {
            RotationState::North => *self = RotationState::East,
            RotationState::East => *self = RotationState::South,
            RotationState::South => *self = RotationState::West,
            RotationState::West => *self = RotationState::North,
        }
    }

    /// Turns a quarter counter-clockwise.
    pub fn ccw(&mut self)
        ensures
            *final(self) == rotation_ccw(*old(self)),
    {
        match *self {
            RotationState::North => *self = RotationState::West,
            RotationState::West => *self = RotationState::South,
            RotationState::South => *self = RotationState::East,
            RotationState::East => *self = RotationState::North,
        }
    }

    /// Turns half a turn.
    pub fn flip(&mut self)
        ensures
            *final(self) == rotation_flip(*old(self)),
    {
        match *self {
            RotationState::North => *self = RotationState::South,
            RotationState::East => *self = RotationState::West,
            RotationState::South => *self = RotationState::North,
            RotationState::West => *self = RotationState::East,
        }
    }
}

impl Direction {
    /// The direction a quarter turn clockwise from this one.
    pub fn cw(self) -> (r: Direction)
        ensures
            r == direction_cw(self),
    {
        match self {
            Direction::Up => Direction::Right,
            Direction::Right => Direction::Down,
            Direction::Down => Direction::Left,
            Direction::Left => Direction::Up,
        }
    }

    /// The direction a quarter turn counter-clockwise from this one.
    pub fn ccw(self) -> (r: Direction)
        ensures
            r == direction_ccw(self),
    {
        match self {
            Direction::Up => Direction::Left,
            Direction::Right => Direction::Up,
            Direction::Down => Direction::Right,
            Direction::Left => Direction::Down,
        }
    }

    /// The opposite direction.
    pub fn flip(self) -> (r: Direction)
        ensures
            r == direction_flip(self),
    {
        match self {
            Direction::Up => Direction::Down,
            Direction::Right => Direction::Left,
            Direction::Down => Direction::Up,
            Direction::Left => Direction::Right,
        }
    }
}

impl PieceState {
    pub fn cw(&mut self)
        ensures
            *final(self) == PieceState(old(self).0, rotation_cw(old(self).1)),
    {
        self.1.cw()
    }

    pub fn ccw(&mut self)
        ensures
            *final(self) == PieceState(old(self).0, rotation_ccw(old(self).1)),
    {
        self.1.ccw()
    }

    pub fn flip(&mut self)
        ensures
            *final(self) == PieceState(old(self).0, rotation_flip(old(self).1)),
    {
        self.1.flip()
    }

    /// The cells this piece and orientation occupy relative to its anchor.
    pub fn cells(&self) -> (r: [(i32, i32); 4])
        ensures
            cells_view(r) == state_cells(*self),
    {
        let base: [(i32, i32); 4] = match self.0 {
            Piece::I => [(-1, 0), (0, 0), (1, 0), (2, 0)],
            Piece::O => [(0, 0), (1, 0), (0, 1), (1, 1)],
            Piece::T => [(-1, 0), (0, 0), (1, 0), (0, 1)],
            Piece::L => [(-1, 0), (0, 0), (1, 0), (1, 1)],
            Piece::J => [(-1, 0), (0, 0), (1, 0), (-1, 1)],
            Piece::S => [(-1, 0), (0, 0), (0, 1), (1, 1)],
            Piece::Z => [(-1, 1), (0, 1), (0, 0), (1, 0)],
        };
        let mut out: [(i32, i32); 4] = base;
        let mut i: usize = 0;
        while i < 4
            invariant
                0 <= i <= 4,
                cells_view(base) == base_cells(self.0),
                forall|j: int| 0 <= j < 4 ==> -2 <= #[trigger] base@[j].0 <= 2 && -2 <= base@[j].1 <= 2,
                out@.len() == 4,
                forall|j: int| 0 <= j < i ==> (out@[j].0 as int, out@[j].1 as int) == oriented(
                    (base@[j].0 as int, base@[j].1 as int),
                    self.1,
                ),
            decreases 4 - i,
        {
            let (dx, dy) = base[i];
            let c: (i32, i32) = match self.1 {
                RotationState::North => (dx, dy),
                RotationState::South => (-dx, -dy),
                RotationState::East => (dy, -dx),
                RotationState::West => (-dy, dx),
            };
            out[i] = c;
            i += 1;
        }
        assert(cells_view(out) =~= state_cells(*self));
        out
    }
}

} // verus!

verus! {

/// A piece on the field: its state, its anchor and its T-spin status.
#[derive(Copy, Clone, Debug, Hash, PartialEq, Eq, Structural)]
pub struct FallingPiece {
    pub kind: PieceState,
    pub x: i32,
    pub y: i32,
    pub tspin: TspinStatus,
}

/// The absolute cells of a piece.
pub open spec fn piece_cells(p: FallingPiece) -> Seq<(int, int)> {
    state_cells(p.kind).map_values(|c: (int, int)| (c.0 + p.x, c.1 + p.y))
}

/// Whether a piece's anchor is far enough from the limits of `i32` that its
/// cells, kicks and neighbours can be computed.
pub open spec fn in_range(p: FallingPiece) -> bool {
    &&& i32::MIN + 8 <= p.x <= i32::MAX - 8
    &&& i32::MIN + 8 <= p.y <= i32::MAX - 8
}

/// Whether the board blocks some cell of the piece.
pub open spec fn obstructs(b: Board, p: FallingPiece) -> bool {
    b.any_occupied(piece_cells(p))
}

/// The piece moved by (dx, dy), with its T-spin status unchanged.
pub open spec fn moved(p: FallingPiece, dx: int, dy: int) -> FallingPiece {
    FallingPiece { x: (p.x + dx) as i32, y: (p.y + dy) as i32, ..p }
}

/// The piece with another T-spin status.
pub open spec fn with_tspin(p: FallingPiece, t: TspinStatus) -> FallingPiece {
    FallingPiece { tspin: t, ..p }
}

/// The outcome of shifting by (dx, dy): the new piece and whether it moved.
pub open spec fn shift_outcome(b: Board, p: FallingPiece, dx: int, dy: int) -> (FallingPiece, bool) {
    if obstructs(b, moved(p, dx, dy)) {
        (p, false)
    } else {
        (with_tspin(moved(p, dx, dy), TspinStatus::NoSpin), true)
    }
}

/// Whether `q` is where `p` comes to rest when dropped straight down, and
/// `r` whether it fell.
pub open spec fn drop_outcome(b: Board, p: FallingPiece, q: FallingPiece, r: bool) -> bool {
    &&& q.kind == p.kind
    &&& q.x == p.x
    &&& q.y <= p.y
    &&& forall|k: int| q.y <= k <= p.y ==> !#[trigger] obstructs(b, FallingPiece { y: k as i32, ..p })
    &&& obstructs(b, moved(q, 0, -1))
    &&& r == (q.y < p.y)
    &&& q.tspin == (if r { TspinStatus::NoSpin } else { p.tspin })
}

/// Whether no single-cell shift in any of the four directions is free.
pub open spec fn immobile(b: Board, p: FallingPiece) -> bool {
    &&& obstructs(b, moved(p, -1, 0))
    &&& obstructs(b, moved(p, 1, 0))
    &&& obstructs(b, moved(p, 0, 1))
    &&& obstructs(b, moved(p, 0, -1))
}

/// The ordered kick offsets tried by a rotation.
pub open spec fn kick_table(d: RotateDirection) -> Seq<(int, int)> {
    match d {
        RotateDirection::Cw => seq![
            (0, 0), (-1, 0), (0, -1), (-1, -1), (0, -2), (-1, -2), (-2, 0), (-2, -1), (-2, -2), (1, 0), (1, -1),
            (0, 1), (-1, 1), (-2, 1), (1, -2), (2, 0), (0, 2), (-1, 2), (-2, 2), (2, -1), (2, -2), (1, 1),
        ],
        RotateDirection::Ccw => seq![
            (0, 0), (1, 0), (0, -1), (1, -1), (0, -2), (1, -2), (2, 0), (2, -1), (2, -2), (-1, 0), (-1, -1),
            (0, 1), (1, 1), (2, 1), (-1, -2), (-2, 0), (0, 2), (1, 2), (2, 2), (-2, -1), (-2, -2), (-1, 1),
        ],
        RotateDirection::Flip => seq![
            (0, 0), (0, -1), (1, 0), (-1, 0), (0, -2), (-1, -1), (1, -1), (1, -2), (-1, -2), (2, 0), (-2, 0),
            (0, 1), (1, 1), (-1, 1), (2, -1), (-2, -1), (2, -2), (-2, -2), (2, 1), (-2, 1), (0, -3), (0, 2),
        ],
        _ => Seq::new(22, |i: int| (0int, 0int)),
    }
}

/// The piece in state `target`, kicked by `k` from `p`'s anchor.
pub open spec fn kicked(p: FallingPiece, target: PieceState, k: (int, int)) -> FallingPiece {
    FallingPiece { kind: target, ..moved(p, k.0, k.1) }
}

/// The first kick from index `i` on that leaves the piece unobstructed.
pub open spec fn first_fit(b: Board, p: FallingPiece, target: PieceState, d: RotateDirection, i: int) -> Option<int>
    decreases 22 - i,
{
    if i >= 22 || i < 0 {
        None
    } else if !obstructs(b, kicked(p, target, kick_table(d)[i])) {
        Some(i)
    } else {
        first_fit(b, p, target, d, i + 1)
    }
}

/// The outcome of rotating `p` into `target` with the kicks of `d`, if any kick fits.
pub open spec fn rotation_outcome(b: Board, p: FallingPiece, target: PieceState, d: RotateDirection) -> Option<FallingPiece> {
    match first_fit(b, p, target, d, 0) {
        Some(i) => {
            let q = kicked(p, target, kick_table(d)[i]);
            Some(with_tspin(q, if immobile(b, q) { TspinStatus::Full } else { TspinStatus::NoSpin }))
        },
        None => None,
    }
}

/// Whether (q, r) is what a rotation into `target` with the kicks of `d` gives.
pub open spec fn rotated_to(b: Board, p: FallingPiece, target: PieceState, d: RotateDirection, q: FallingPiece, r: bool) -> bool {
    match rotation_outcome(b, p, target, d) {
        Some(n) => r && q == n,
        None => !r && q == p,
    }
}

proof fn lemma_unobstructed_bounds(b: Board, p: FallingPiece)
    requires
        !obstructs(b, p),
    ensures
        -2 <= p.x <= 11,
        -2 <= p.y <= 41,
{
    lemma_offsets_small(p.kind, 0);
    assert(!occupied_cell(b, piece_cells(p)[0]));
}

impl Board {
    /// Whether some cell of the piece is out of the field or filled.
    pub fn obstructed(&self, p: &FallingPiece) -> (r: bool)
        ensures
            r == obstructs(*self, *p),
    {
        let offs = p.kind.cells();
        let mut i: usize = 0;
        let mut hit = false;
        proof {
            lemma_offsets_small(p.kind, 0);
            lemma_offsets_small(p.kind, 1);
            lemma_offsets_small(p.kind, 2);
            lemma_offsets_small(p.kind, 3);
        }
        while i < 4
            invariant
                i <= 4,
                cells_view(offs) == state_cells(p.kind),
                piece_cells(*p).len() == 4,
                hit == exists|j: int| 0 <= j < i && #[trigger] occupied_cell(*self, piece_cells(*p)[j]),
            decreases 4 - i,
        {
            let (dx, dy) = offs[i];
            assert(cells_view(offs)[i as int] == (dx as int, dy as int));
            assert(piece_cells(*p)[i as int] == (p.x + dx, p.y + dy));
            let x: i64 = p.x as i64 + dx as i64;
            let y: i64 = p.y as i64 + dy as i64;
            if self.occupied(x, y) {
                hit = true;
            }
            assert(occupied_cell(*self, piece_cells(*p)[i as int]) == self.occupied_at(x as int, y as int));
            i += 1;
        }
        hit
    }
}

impl FallingPiece {
    /// The absolute cells of this piece.
    pub fn cells(&self) -> (r: [(i32, i32); 4])
        requires
            in_range(*self),
        ensures
            cells_view(r) == piece_cells(*self),
    {
        let offs = self.kind.cells();
        let mut out = offs;
        let mut i: usize = 0;
        proof {
            lemma_offsets_small(self.kind, 0);
            lemma_offsets_small(self.kind, 1);
            lemma_offsets_small(self.kind, 2);
            lemma_offsets_small(self.kind, 3);
        }
        while i < 4
            invariant
                i <= 4,
                in_range(*self),
                cells_view(offs) == state_cells(self.kind),
                state_cells(self.kind).len() == 4,
                forall|j: int| 0 <= j < 4 ==> -2 <= #[trigger] state_cells(self.kind)[j].0 <= 2 && -2 <= state_cells(self.kind)[j].1 <= 2,
                out@.len() == 4,
                forall|j: int| 0 <= j < i ==> (#[trigger] out@[j].0 as int, out@[j].1 as int) == piece_cells(*self)[j],
            decreases 4 - i,
        {
            let (dx, dy) = offs[i];
            assert(cells_view(offs)[i as int] == (dx as int, dy as int));
            out[i] = (dx + self.x, dy + self.y);
            i += 1;
        }
        assert(cells_view(out) =~= piece_cells(*self));
        out
    }

    /// Moves the piece by (dx, dy) unless that is obstructed; a move clears
    /// the T-spin status. Returns whether it moved.
    pub fn shift(&mut self, board: &Board, dx: i32, dy: i32) -> (r: bool)
        requires
            i32::MIN <= old(self).x + dx <= i32::MAX,
            i32::MIN <= old(self).y + dy <= i32::MAX,
        ensures
            (*final(self), r) == shift_outcome(*board, *old(self), dx as int, dy as int),
    {
        self.x = self.x + dx;
        self.y = self.y + dy;
        if board.obstructed(self) {
            self.x = self.x - dx;
            self.y = self.y - dy;
            false
        } else {
            self.tspin = TspinStatus::NoSpin;
            true
        }
    }

    /// Drops the piece straight down as far as it goes. Returns whether it fell.
    pub fn sonic_drop(&mut self, board: &Board) -> (r: bool)
        requires
            !obstructs(*board, *old(self)),
        ensures
            drop_outcome(*board, *old(self), *final(self), r),
    {
        proof {
            lemma_unobstructed_bounds(*board, *self);
        }
        let start = *self;
        let mut below = *self;
        below.y = self.y - 1;
        while !board.obstructed(&below)
            invariant
                below == moved(*self, 0, -1),
                self.kind == start.kind,
                self.x == start.x,
                -2 <= self.y <= start.y,
                !obstructs(*board, *self),
                forall|k: int| self.y <= k <= start.y ==> !#[trigger] obstructs(*board, FallingPiece { y: k as i32, ..start }),
                self.tspin == (if self.y < start.y { TspinStatus::NoSpin } else { start.tspin }),
            decreases self.y + 3,
        {
            proof {
                lemma_unobstructed_bounds(*board, below);
                assert(FallingPiece { y: below.y, ..start } == with_tspin(below, start.tspin));
                assert(piece_cells(below) == piece_cells(FallingPiece { y: below.y, ..start }));
            }
            self.y = below.y;
            self.tspin = TspinStatus::NoSpin;
            below = *self;
            below.y = self.y - 1;
        }
        self.y < start.y
    }

    /// Tries each kick of `rot_dir` in order, turning the piece into `target`;
    /// the first unobstructed one is taken, and the T-spin status records
    /// whether the piece can then move at all. Returns whether it rotated.
    fn rotate(&mut self, target: PieceState, board: &Board, rot_dir: RotateDirection) -> (r: bool)
        requires
            in_range(*old(self)),
        ensures
            rotated_to(*board, *old(self), target, rot_dir, *final(self), r),
    {
        let initial = *self;
        self.kind = target;
        let kicks = kick_offsets(rot_dir);
        let mut i: usize = 0;
        while i < 22
            invariant
                i <= 22,
                initial == *old(self),
                in_range(initial),
                self.kind == target,
                self.tspin == initial.tspin,
                kicks_view(kicks) == kick_table(rot_dir),
                first_fit(*board, initial, target, rot_dir, 0) == first_fit(*board, initial, target, rot_dir, i as int),
            decreases 22 - i,
        {
            let (dx, dy) = kicks[i];
            assert(kicks_view(kicks)[i as int] == (dx as int, dy as int));
            self.x = initial.x + dx;
            self.y = initial.y + dy;
            assert(*self == kicked(initial, target, kick_table(rot_dir)[i as int]));
            if !board.obstructed(self) {
                let q = *self;
                let mut probe = *self;
                if !probe.shift(board, -1, 0) && !probe.shift(board, 1, 0) && !probe.shift(board, 0, 1)
                    && !probe.shift(board, 0, -1) {
                    self.tspin = TspinStatus::Full;
                } else {
                    self.tspin = TspinStatus::NoSpin;
                }
                assert(first_fit(*board, initial, target, rot_dir, i as int) == Some(i as int));
                assert(*self == with_tspin(q, if immobile(*board, q) { TspinStatus::Full } else { TspinStatus::NoSpin }));
                assert(first_fit(*board, *old(self), target, rot_dir, 0) == Some(i as int));
                assert(rotation_outcome(*board, *old(self), target, rot_dir) == Some(*self));
                return true;
            }
            i += 1;
        }
        *self = initial;
        false
    }

    /// Rotates a quarter clockwise, with kicks.
    pub fn cw(&mut self, board: &Board) -> (r: bool)
        requires
            in_range(*old(self)),
        ensures
            rotated_to(*board, *old(self), PieceState(old(self).kind.0, rotation_cw(old(self).kind.1)), RotateDirection::Cw, *final(self), r),
    {
        let mut target = self.kind;
        target.cw();
        self.rotate(target, board, RotateDirection::Cw)
    }

    /// Rotates a quarter counter-clockwise, with kicks.
    pub fn ccw(&mut self, board: &Board) -> (r: bool)
        requires
            in_range(*old(self)),
        ensures
            rotated_to(*board, *old(self), PieceState(old(self).kind.0, rotation_ccw(old(self).kind.1)), RotateDirection::Ccw, *final(self), r),
    {
        let mut target = self.kind;
        target.ccw();
        self.rotate(target, board, RotateDirection::Ccw)
    }

    /// Rotates half a turn, with kicks.
    pub fn flip(&mut self, board: &Board) -> (r: bool)
        requires
            in_range(*old(self)),
        ensures
            rotated_to(*board, *old(self), PieceState(old(self).kind.0, rotation_flip(old(self).kind.1)), RotateDirection::Flip, *final(self), r),
    {
        let mut target = self.kind;
        target.flip();
        self.rotate(target, board, RotateDirection::Flip)
    }

    /// Rotates into the same state without kicks, which only re-derives the
    /// T-spin status where the piece stands.
    pub fn memeflip(&mut self, board: &Board) -> (r: bool)
        requires
            in_range(*old(self)),
        ensures
            rotated_to(*board, *old(self), old(self).kind, RotateDirection::Meme, *final(self), r),
    {
        let target = self.kind;
        self.rotate(target, board, RotateDirection::Meme)
    }

    /// Whether both pieces are of one kind and cover the same cells.
    pub fn same_location(&self, other: &Self) -> (r: bool)
        requires
            in_range(*self),
            in_range(*other),
        ensures
            r == (self.kind.0 == other.kind.0 && forall|i: int| 0 <= i < 4 ==> piece_cells(*other).contains(#[trigger] piece_cells(*self)[i])),
    {
        if self.kind.0 != other.kind.0 {
            return false;
        }
        let other_cells = other.cells();
        let mine = self.cells();
        let mut i: usize = 0;
        while i < 4
            invariant
                i <= 4,
                self.kind.0 == other.kind.0,
                cells_view(other_cells) == piece_cells(*other),
                cells_view(mine) == piece_cells(*self),
                forall|k: int| 0 <= k < i ==> piece_cells(*other).contains(#[trigger] piece_cells(*self)[k]),
            decreases 4 - i,
        {
            let c = mine[i];
            assert(cells_view(mine)[i as int] == (c.0 as int, c.1 as int));
            let mut found = false;
            let mut j: usize = 0;
            while j < 4
                invariant
                    j <= 4,
                    cells_view(other_cells) == piece_cells(*other),
                    found == exists|k: int| 0 <= k < j && #[trigger] piece_cells(*other)[k] == (c.0 as int, c.1 as int),
                decreases 4 - j,
            {
                assert(cells_view(other_cells)[j as int] == (other_cells[j as int].0 as int, other_cells[j as int].1 as int));
                if other_cells[j].0 == c.0 && other_cells[j].1 == c.1 {
                    found = true;
                }
                j += 1;
            }
            if !found {
                proof {
                    assert(!piece_cells(*other).contains(piece_cells(*self)[i as int]));
                }
                return false;
            }
            i += 1;
        }
        true
    }
}

/// The kick offsets as integers.
pub open spec fn kicks_view(a: [(i32, i32); 22]) -> Seq<(int, int)> {
    a@.map_values(|c: (i32, i32)| (c.0 as int, c.1 as int))
}

/// The ordered kick offsets of a rotation direction.
fn kick_offsets(d: RotateDirection) -> (r: [(i32, i32); 22])
    ensures
        kicks_view(r) == kick_table(d),
{
    let r: [(i32, i32); 22] = match d {
        RotateDirection::Cw => [
            (0, 0), (-1, 0), (0, -1), (-1, -1), (0, -2), (-1, -2), (-2, 0), (-2, -1), (-2, -2), (1, 0), (1, -1),
            (0, 1), (-1, 1), (-2, 1), (1, -2), (2, 0), (0, 2), (-1, 2), (-2, 2), (2, -1), (2, -2), (1, 1),
        ],
        RotateDirection::Ccw => [
            (0, 0), (1, 0), (0, -1), (1, -1), (0, -2), (1, -2), (2, 0), (2, -1), (2, -2), (-1, 0), (-1, -1),
            (0, 1), (1, 1), (2, 1), (-1, -2), (-2, 0), (0, 2), (1, 2), (2, 2), (-2, -1), (-2, -2), (-1, 1),
        ],
        RotateDirection::Flip => [
            (0, 0), (0, -1), (1, 0), (-1, 0), (0, -2), (-1, -1), (1, -1), (1, -2), (-1, -2), (2, 0), (-2, 0),
            (0, 1), (1, 1), (-1, 1), (2, -1), (-2, -1), (2, -2), (-2, -2), (2, 1), (-2, 1), (0, -3), (0, 2),
        ],
        _ => [(0, 0); 22],
    };
    assert(kicks_view(r) =~= kick_table(d));
    r
}

/// One atomic control action.
#[derive(Copy, Clone, Debug, Hash, PartialEq, Eq, Structural)]
pub enum PieceMovement {
    Left,
    Right,
    Cw,
    Ccw,
    Flip,
    SonicDrop,
}

} // verus!

verus! {

/// Whether (q, r) is what movement `m` does to `p` on `b`.
pub open spec fn movement_outcome(m: PieceMovement, b: Board, p: FallingPiece, q: FallingPiece, r: bool) -> bool {
    match m {
        PieceMovement::Left => (q, r) == shift_outcome(b, p, -1, 0),
        PieceMovement::Right => (q, r) == shift_outcome(b, p, 1, 0),
        PieceMovement::Cw => rotated_to(b, p, PieceState(p.kind.0, rotation_cw(p.kind.1)), RotateDirection::Cw, q, r),
        PieceMovement::Ccw => rotated_to(b, p, PieceState(p.kind.0, rotation_ccw(p.kind.1)), RotateDirection::Ccw, q, r),
        PieceMovement::Flip => rotated_to(b, p, PieceState(p.kind.0, rotation_flip(p.kind.1)), RotateDirection::Flip, q, r),
        PieceMovement::SonicDrop => drop_outcome(b, p, q, r),
    }
}

proof fn lemma_first_fit_fits(b: Board, p: FallingPiece, target: PieceState, d: RotateDirection, i: int)
    requires
        first_fit(b, p, target, d, i) is Some,
    ensures
        0 <= first_fit(b, p, target, d, i)->0 < 22,
        !obstructs(b, kicked(p, target, kick_table(d)[first_fit(b, p, target, d, i)->0])),
    decreases 22 - i,
{
    if i >= 22 || i < 0 {
    } else if !obstructs(b, kicked(p, target, kick_table(d)[i])) {
    } else {
        lemma_first_fit_fits(b, p, target, d, i + 1);
    }
}

/// A movement never takes an unobstructed piece into an obstructed place.
pub proof fn lemma_movement_keeps_free(m: PieceMovement, b: Board, p: FallingPiece, q: FallingPiece, r: bool)
    requires
        !obstructs(b, p),
        movement_outcome(m, b, p, q, r),
    ensures
        !obstructs(b, q),
{
    match m {
        PieceMovement::Left | PieceMovement::Right => {
            let dx: int = if m == PieceMovement::Left { -1 } else { 1 };
            if r {
                assert(piece_cells(q) == piece_cells(moved(p, dx, 0)));
            }
        },
        PieceMovement::SonicDrop => {
            let k: int = q.y as int;
            assert(!obstructs(b, FallingPiece { y: k as i32, ..p }));
            let at = FallingPiece { y: q.y, ..p };
            assert(piece_cells(q) == piece_cells(at));
        },
        _ => {
            let target = match m {
                PieceMovement::Cw => PieceState(p.kind.0, rotation_cw(p.kind.1)),
                PieceMovement::Ccw => PieceState(p.kind.0, rotation_ccw(p.kind.1)),
                _ => PieceState(p.kind.0, rotation_flip(p.kind.1)),
            };
            let d = match m {
                PieceMovement::Cw => RotateDirection::Cw,
                PieceMovement::Ccw => RotateDirection::Ccw,
                _ => RotateDirection::Flip,
            };
            if first_fit(b, p, target, d, 0) is Some {
                lemma_first_fit_fits(b, p, target, d, 0);
                let k = kicked(p, target, kick_table(d)[first_fit(b, p, target, d, 0)->0]);
                assert(piece_cells(q) == piece_cells(k));
            }
        },
    }
}

/// Every unobstructed piece lies within a few cells of the field.
pub proof fn lemma_free_in_range(b: Board, p: FallingPiece)
    requires
        !obstructs(b, p),
    ensures
        -2 <= p.x <= 11,
        -2 <= p.y <= 41,
        in_range(p),
{
    lemma_unobstructed_bounds(b, p);
}

impl PieceMovement {
    /// Performs this movement on `piece`. Returns whether it changed anything.
    pub fn apply(self, piece: &mut FallingPiece, board: &Board) -> (r: bool)
        requires
            !obstructs(*board, *old(piece)),
        ensures
            movement_outcome(self, *board, *old(piece), *final(piece), r),
            !obstructs(*board, *final(piece)),
    {
        proof {
            lemma_unobstructed_bounds(*board, *piece);
        }
        let r = match self {
            PieceMovement::Left => piece.shift(board, -1, 0),
            PieceMovement::Right => piece.shift(board, 1, 0),
            PieceMovement::Ccw => piece.ccw(board),
            PieceMovement::Cw => piece.cw(board),
            PieceMovement::Flip => piece.flip(board),
            PieceMovement::SonicDrop => piece.sonic_drop(board),
        };
        proof {
            lemma_movement_keeps_free(self, *board, *old(piece), *piece, r);
        }
        r
    }
}

/// Where new pieces appear.
#[derive(Copy, Clone, Debug, Hash, PartialEq, Eq, Structural)]
pub enum SpawnRule {
    Row19Or20,
    Row21AndFall,
    Asc,
}

/// A North-facing piece of kind `p` anchored at (4, y).
pub open spec fn spawn_pose(p: Piece, y: i32) -> FallingPiece {
    FallingPiece { kind: PieceState(p, RotationState::North), x: 4, y, tspin: TspinStatus::NoSpin }
}

/// Where a rule spawns a piece of kind `p` on `b`, if it has room.
pub open spec fn spawn_outcome(rule: SpawnRule, p: Piece, b: Board) -> Option<FallingPiece> {
    match rule {
        SpawnRule::Row19Or20 => if !obstructs(b, spawn_pose(p, 19)) {
            Some(spawn_pose(p, 19))
        } else if !obstructs(b, spawn_pose(p, 20)) {
            Some(spawn_pose(p, 20))
        } else {
            None
        },
        SpawnRule::Row21AndFall => if !obstructs(b, spawn_pose(p, 21)) {
            Some(shift_outcome(b, spawn_pose(p, 21), 0, -1).0)
        } else {
            None
        },
        SpawnRule::Asc => if !obstructs(b, spawn_pose(p, 22)) {
            Some(spawn_pose(p, 22))
        } else {
            None
        },
    }
}

impl SpawnRule {
    /// Where this rule spawns a piece of kind `p` on `b`, if it has room.
    pub open spec fn spawn_spec(self, p: Piece, b: Board) -> Option<FallingPiece> {
        spawn_outcome(self, p, b)
    }

    /// Places a new piece of kind `piece` on the board, or `None` if the
    /// spawn location is blocked.
    pub fn spawn(self, piece: Piece, board: &Board) -> (r: Option<FallingPiece>)
        ensures
            r == spawn_outcome(self, piece, *board),
            r is Some ==> !obstructs(*board, r->0),
    {
        match self {
            SpawnRule::Row19Or20 => {
                let mut spawned = FallingPiece {
                    kind: PieceState(piece, RotationState::North),
                    x: 4,
                    y: 19,
                    tspin: TspinStatus::NoSpin,
                };
                if !board.obstructed(&spawned) {
                    return Some(spawned);
                }
                spawned.y = spawned.y + 1;
                if !board.obstructed(&spawned) {
                    return Some(spawned);
                }
            },
            SpawnRule::Row21AndFall => {
                let mut spawned = FallingPiece {
                    kind: PieceState(piece, RotationState::North),
                    x: 4,
                    y: 21,
                    tspin: TspinStatus::NoSpin,
                };
                if !board.obstructed(&spawned) {
                    let ghost before = spawned;
                    spawned.shift(board, 0, -1);
                    proof {
                        if !obstructs(*board, moved(before, 0, -1)) {
                            assert(piece_cells(spawned) == piece_cells(moved(before, 0, -1)));
                        }
                    }
                    return Some(spawned);
                }
            },
            SpawnRule::Asc => {
                let spawned = FallingPiece {
                    kind: PieceState(piece, RotationState::North),
                    x: 4,
                    y: 22,
                    tspin: TspinStatus::NoSpin,
                };
                if !board.obstructed(&spawned) {
                    return Some(spawned);
                }
            },
        }
        None
    }
}

} // verus!

verus! {

/// The directions in which a cell joins the other cells of its piece.
#[derive(Copy, Clone, Debug, Default, Hash, PartialEq, Eq, Structural)]
pub struct Connections {
    pub up: bool,
    pub down: bool,
    pub left: bool,
    pub right: bool,
}

pub open spec fn conn(up: bool, down: bool, left: bool, right: bool) -> Connections {
    Connections { up, down, left, right }
}

/// Whether the set holds direction `d`.
pub open spec fn has_direction(c: Connections, d: Direction) -> bool {
    match d {
        Direction::Up => c.up,
        Direction::Down => c.down,
        Direction::Left => c.left,
        Direction::Right => c.right,
    }
}

/// The connections of cell `i` of kind `p` in its North orientation.
pub open spec fn base_connections(p: Piece, i: int) -> Connections {
    if i == 0 {
        match p {
            Piece::O | Piece::J => conn(true, false, false, true),
            _ => conn(false, false, false, true),
        }
    } else if i == 1 {
        match p {
            Piece::O | Piece::S => conn(true, false, true, false),
            Piece::T => conn(true, false, true, true),
            Piece::Z => conn(false, true, true, false),
            _ => conn(false, false, true, true),
        }
    } else if i == 2 {
        match p {
            Piece::I => conn(false, false, true, true),
            Piece::O | Piece::S => conn(false, true, false, true),
            Piece::L => conn(true, false, true, false),
            Piece::Z => conn(true, false, false, true),
            _ => conn(false, false, true, false),
        }
    } else {
        match p {
            Piece::I | Piece::S | Piece::Z => conn(false, false, true, false),
            Piece::O => conn(false, true, true, false),
            _ => conn(false, true, false, false),
        }
    }
}

/// A set of directions turned into orientation `r`.
pub open spec fn turned(c: Connections, r: RotationState) -> Connections {
    match r {
        RotationState::North => c,
        RotationState::East => conn(c.left, c.right, c.down, c.up),
        RotationState::South => conn(c.down, c.up, c.right, c.left),
        RotationState::West => conn(c.right, c.left, c.up, c.down),
    }
}

/// The connections of cell `i` of a piece state.
pub open spec fn state_connections(s: PieceState, i: int) -> Connections {
    turned(base_connections(s.0, i), s.1)
}

/// Adds direction `d` to the set.
fn with_direction(c: Connections, d: Direction) -> (r: Connections)
    ensures
        forall|e: Direction| #[trigger] has_direction(r, e) == (has_direction(c, e) || e == d),
{
    match d {
        Direction::Up => Connections { up: true, ..c },
        Direction::Down => Connections { down: true, ..c },
        Direction::Left => Connections { left: true, ..c },
        Direction::Right => Connections { right: true, ..c },
    }
}

/// Turns each direction of the set into orientation `rot`.
fn turn_connections(c: Connections, rot: RotationState) -> (r: Connections)
    ensures
        r == turned(c, rot),
{
    let mut out = Connections { up: false, down: false, left: false, right: false };
    let dirs: [Direction; 4] = [Direction::Up, Direction::Down, Direction::Left, Direction::Right];
    let mut i: usize = 0;
    while i < 4
        invariant
            i <= 4,
            dirs@ == seq![Direction::Up, Direction::Down, Direction::Left, Direction::Right],
            forall|e: Direction| #[trigger] has_direction(out, e) == exists|k: int|
                0 <= k < i && has_direction(c, dirs@[k]) && e == turn_direction(dirs@[k], rot),
        decreases 4 - i,
    {
        let d = dirs[i];
        if match d {
            Direction::Up => c.up,
            Direction::Down => c.down,
            Direction::Left => c.left,
            Direction::Right => c.right,
        } {
            let t = match rot {
                RotationState::North => d,
                RotationState::East => d.cw(),
                RotationState::South => d.flip(),
                RotationState::West => d.ccw(),
            };
            out = with_direction(out, t);
        }
        proof {
            assert forall|e: Direction| #[trigger] has_direction(out, e) == exists|k: int|
                0 <= k < i + 1 && has_direction(c, dirs@[k]) && e == turn_direction(dirs@[k], rot) by {
                if has_direction(c, dirs@[i as int]) && e == turn_direction(dirs@[i as int], rot) {
                    assert(exists|k: int| 0 <= k < i + 1 && has_direction(c, dirs@[k]) && e == turn_direction(dirs@[k], rot));
                }
            }
        }
        i += 1;
    }
    proof {
        let t = turned(c, rot);
        assert(has_direction(out, Direction::Up) == t.up);
        assert(has_direction(out, Direction::Down) == t.down);
        assert(has_direction(out, Direction::Left) == t.left);
        assert(has_direction(out, Direction::Right) == t.right);
    }
    out
}

/// A direction turned into orientation `r`.
pub open spec fn turn_direction(d: Direction, r: RotationState) -> Direction {
    match r {
        RotationState::North => d,
        RotationState::East => direction_cw(d),
        RotationState::South => direction_flip(d),
        RotationState::West => direction_ccw(d),
    }
}

impl PieceState {
    /// The cells this piece and orientation occupy relative to its anchor,
    /// each with the directions in which it joins the others.
    pub fn cells_with_connections(&self) -> (r: [(i32, i32, Connections); 4])
        ensures
            forall|i: int| 0 <= i < 4 ==> (#[trigger] r@[i].0 as int, r@[i].1 as int) == state_cells(*self)[i]
                && r@[i].2 == state_connections(*self, i),
    {
        let cells = self.cells();
        let mut out: [(i32, i32, Connections); 4] = [(0, 0, Connections { up: false, down: false, left: false, right: false }); 4];
        let mut i: usize = 0;
        while i < 4
            invariant
                i <= 4,
                cells_view(cells) == state_cells(*self),
                forall|k: int| 0 <= k < i ==> (#[trigger] out@[k].0 as int, out@[k].1 as int) == state_cells(*self)[k]
                    && out@[k].2 == state_connections(*self, k),
            decreases 4 - i,
        {
            let base = base_connection(self.0, i);
            let (x, y) = cells[i];
            assert(cells_view(cells)[i as int] == (x as int, y as int));
            let ghost prev = out;
            out[i] = (x, y, turn_connections(base, self.1));
            proof {
                assert forall|k: int| 0 <= k < i + 1 implies (#[trigger] out@[k].0 as int, out@[k].1 as int) == state_cells(*self)[k]
                    && out@[k].2 == state_connections(*self, k) by {
                    if k < i {
                        assert(out@[k] == prev@[k]);
                        assert((prev@[k].0 as int, prev@[k].1 as int) == state_cells(*self)[k]);
                    } else {
                        assert(out@[k] == (x, y, turned(base, self.1)));
                    }
                }
            }
            i += 1;
        }
        out
    }
}

/// The connections of cell `i` of kind `p` in its North orientation.
fn base_connection(p: Piece, i: usize) -> (r: Connections)
    ensures
        r == base_connections(p, i as int),
{
    let c = |up: bool, down: bool, left: bool, right: bool| -> (r: Connections)
        ensures
            r == conn(up, down, left, right),
        { Connections { up, down, left, right } };
    if i == 0 {
        match p {
            Piece::O | Piece::J => c(true, false, false, true),
            _ => c(false, false, false, true),
        }
    } else if i == 1 {
        match p {
            Piece::O | Piece::S => c(true, false, true, false),
            Piece::T => c(true, false, true, true),
            Piece::Z => c(false, true, true, false),
            _ => c(false, false, true, true),
        }
    } else if i == 2 {
        match p {
            Piece::I => c(false, false, true, true),
            Piece::O | Piece::S => c(false, true, false, true),
            Piece::L => c(true, false, true, false),
            Piece::Z => c(true, false, false, true),
            _ => c(false, false, true, false),
        }
    } else {
        match p {
            Piece::I | Piece::S | Piece::Z => c(false, false, true, false),
            Piece::O => c(false, true, true, false),
            _ => c(false, true, false, false),
        }
    }
}

impl FallingPiece {
    /// The absolute cells of this piece, each with the directions in which
    /// it joins the others.
    pub fn cells_with_connections(&self) -> (r: [(i32, i32, Connections); 4])
        requires
            in_range(*self),
        ensures
            forall|i: int| 0 <= i < 4 ==> (#[trigger] r@[i].0 as int, r@[i].1 as int) == piece_cells(*self)[i]
                && r@[i].2 == state_connections(self.kind, i),
    {
        let rel = self.kind.cells_with_connections();
        let abs = self.cells();
        let mut cells = rel;
        let mut i: usize = 0;
        while i < 4
            invariant
                i <= 4,
                forall|k: int| 0 <= k < i ==> #[trigger] cells@[k] == (abs@[k].0, abs@[k].1, rel@[k].2),
            decreases 4 - i,
        {
            cells[i] = (abs[i].0, abs[i].1, rel[i].2);
            i += 1;
        }
        proof {
            assert forall|k: int| 0 <= k < 4 implies (#[trigger] cells@[k].0 as int, cells@[k].1 as int) == piece_cells(*self)[k]
                && cells@[k].2 == state_connections(self.kind, k) by {
                assert(cells@[k] == (abs@[k].0, abs@[k].1, rel@[k].2));
                assert(cells_view(abs)[k] == (abs@[k].0 as int, abs@[k].1 as int));
                assert((rel@[k].0 as int, rel@[k].1 as int) == state_cells(self.kind)[k]);
            }
        }
        cells
    }
}

} // verus!

verus! {

/// A straight drop has one outcome.
pub proof fn lemma_drop_unique(b: Board, p: FallingPiece, q1: FallingPiece, f1: bool, q2: FallingPiece, f2: bool)
    requires
        drop_outcome(b, p, q1, f1),
        drop_outcome(b, p, q2, f2),
    ensures
        q1 == q2,
        f1 == f2,
{
    if q1.y < q2.y {
        let k: int = q2.y - 1;
        assert(!obstructs(b, FallingPiece { y: k as i32, ..p }));
        assert(piece_cells(moved(q2, 0, -1)) == piece_cells(FallingPiece { y: k as i32, ..p }));
    } else if q2.y < q1.y {
        let k: int = q1.y - 1;
        assert(!obstructs(b, FallingPiece { y: k as i32, ..p }));
        assert(piece_cells(moved(q1, 0, -1)) == piece_cells(FallingPiece { y: k as i32, ..p }));
    }
}

} // verus!
