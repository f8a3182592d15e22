//! The playing field: a grid of filled cells, the piece queue and the hold slot.
use vstd::prelude::*;
use crate::piece::{Piece, FallingPiece, piece_index, piece_of_index, piece_cells, obstructs, lemma_offsets_small, state_cells};
use crate::lock_data::{LockResult, PlacementKind, kind_of, kind_is_clear, kind_is_hard, kind_garbage, combo_garbage_table, COMBO_GARBAGE};
use arrayvec::ArrayVec;
use crate::arrays::{held_rows, rows_new, rows_push};

verus! {

/// Width of the playing field in cells.
pub const BOARD_WIDTH: i32 = 10;

/// Height of the playing field in cells, hidden rows included.
pub const BOARD_HEIGHT: i32 = 40;

/// One row of the field; `true` marks a filled cell.
pub type Row = [bool; 10];

/// A row with no filled cell.
/// Whether every cell of a row is filled.
pub open spec fn row_full(r: Seq<bool>) -> bool {
    forall|x: int| 0 <= x < 10 ==> #[trigger] r[x]
}

/// Whether no cell of a row is filled.
pub open spec fn row_empty(r: Seq<bool>) -> bool {
    forall|x: int| 0 <= x < 10 ==> !#[trigger] r[x]
}

/// The height of column `x` counting only the lowest `n` rows: one above its
/// highest filled cell, or 0.
pub open spec fn column_height(grid: Seq<Seq<bool>>, x: int, n: int) -> int
    decreases n,
{
    if n <= 0 {
        0
    } else if grid[n - 1][x] {
        n
    } else {
        column_height(grid, x, n - 1)
    }
}

/// The playing field and the piece queue.
pub struct Board {
    cells: [Row; 40],
    combo: u32,
    b2b_bonus: bool,
    hold_piece: Option<Piece>,
    next_pieces: Vec<Piece>,
    bag: [bool; 7],
}

impl Board {
    /// The rows of the field, bottom first.
    pub closed spec fn grid(&self) -> Seq<Seq<bool>> {
        grid_of(self.cells)
    }

    /// The pieces revealed in the queue, next first.
    pub closed spec fn queue(&self) -> Seq<Piece> {
        self.next_pieces@
    }

    /// The held piece, if any.
    pub closed spec fn held(&self) -> Option<Piece> {
        self.hold_piece
    }

    /// For each kind (by index), whether it may still come in the current bag.
    pub closed spec fn bag_view(&self) -> Seq<bool> {
        self.bag@
    }

    /// The number of consecutive clearing locks so far.
    pub closed spec fn combo_view(&self) -> u32 {
        self.combo
    }

    /// Whether the last clearing lock was a hard one.
    pub closed spec fn b2b_view(&self) -> bool {
        self.b2b_bonus
    }

    /// Whether the cell at (x, y) is a wall, the floor, the ceiling or filled.
    pub open spec fn occupied_at(&self, x: int, y: int) -> bool {
        x < 0 || x >= 10 || y < 0 || y >= 40 || self.grid()[y][x]
    }

    /// Whether two boards agree in every respect.
    pub open spec fn same_as(&self, o: Board) -> bool {
        &&& self.grid() == o.grid()
        &&& self.queue() == o.queue()
        &&& self.held() == o.held()
        &&& self.bag_view() == o.bag_view()
        &&& self.combo_view() == o.combo_view()
        &&& self.b2b_view() == o.b2b_view()
    }

    /// Whether any of the given cells is occupied.
    pub open spec fn any_occupied(&self, cells: Seq<(int, int)>) -> bool {
        exists|i: int| 0 <= i < cells.len() && #[trigger] occupied_cell(*self, cells[i])
    }

    /// An empty field with an empty queue, no held piece and a fresh bag.
    pub fn new() -> (r: Board)
        ensures
            forall|y: int| 0 <= y < 40 ==> row_empty(#[trigger] r.grid()[y]),
            r.queue() == Seq::<Piece>::empty(),
            r.held() == None::<Piece>,
            r.bag_view() == seq![true, true, true, true, true, true, true],
            r.combo_view() == 0,
            !r.b2b_view(),
    {
        let empty: Row = [false; 10];
        let cells: [Row; 40] = [empty; 40];
        assert forall|y: int| 0 <= y < 40 implies row_empty(#[trigger] grid_of(cells)[y]) by {
            assert(cells@[y] == empty);
        }
        let b = Board {
            cells,
            combo: 0,
            b2b_bonus: false,
            hold_piece: None,
            next_pieces: Vec::new(),
            bag: [true; 7],
        };
        assert(b.bag@ =~= seq![true, true, true, true, true, true, true]);
        b
    }

    /// Whether the cell at (x, y) is a wall, the floor, the ceiling or filled.
    pub fn occupied(&self, x: i64, y: i64) -> (r: bool)
        ensures
            r == self.occupied_at(x as int, y as int),
    {
        if x < 0 || x >= 10 || y < 0 || y >= 40 {
            true
        } else {
            self.cells[y as usize][x as usize]
        }
    }

    /// Fills the cell at (x, y). A row filled this way is only cleared once a
    /// lock touches it.
    pub fn set_cell(&mut self, x: usize, y: usize)
        requires
            x < 10,
            y < 40,
        ensures
            final(self).grid() == old(self).grid().update(
                y as int,
                old(self).grid()[y as int].update(x as int, true),
            ),
            final(self).queue() == old(self).queue(),
            final(self).held() == old(self).held(),
            final(self).bag_view() == old(self).bag_view(),
            final(self).combo_view() == old(self).combo_view(),
            final(self).b2b_view() == old(self).b2b_view(),
    {
        let mut row: Row = self.cells[y];
        row[x] = true;
        self.cells[y] = row;
        assert(self.grid() =~= old(self).grid().update(y as int, old(self).grid()[y as int].update(x as int, true)));
    }

    /// The height of each column: one above its highest filled cell, or 0.
    pub fn column_heights(&self) -> (r: Vec<i32>)
        ensures
            r@.len() == 10,
            forall|x: int| 0 <= x < 10 ==> #[trigger] r[x] as int == column_height(self.grid(), x, 40),
    {
        let mut heights: Vec<i32> = Vec::new();
        let mut x: usize = 0;
        while x < 10
            invariant
                x <= 10,
                heights@.len() == x,
                forall|c: int| 0 <= c < x ==> #[trigger] heights@[c] as int == column_height(self.grid(), c, 40),
            decreases 10 - x,
        {
            let mut n: usize = 40;
            while n > 0 && !self.cells[n - 1][x]
                invariant
                    n <= 40,
                    x < 10,
                        column_height(self.grid(), x as int, n as int) == column_height(self.grid(), x as int, 40),
                decreases n,
            {
                n -= 1;
            }
            heights.push(n as i32);
            x += 1;
        }
        heights
    }

    /// The sum of the column heights.
    pub fn height_sum(&self) -> (r: i32)
        ensures
            r == column_heights_sum(self.grid(), 10),
    {
        let heights = self.column_heights();
        let mut sum: i32 = 0;
        let mut x: usize = 0;
        while x < 10
            invariant
                x <= 10,
                heights@.len() == 10,
                forall|c: int| 0 <= c < 10 ==> #[trigger] heights@[c] as int == column_height(self.grid(), c, 40),
                sum as int == column_heights_sum(self.grid(), x as int),
                0 <= sum <= 40 * x,
            decreases 10 - x,
        {
            proof {
                lemma_column_height_bounds(self.grid(), x as int, 40);
            }
            sum = sum + heights[x];
            x += 1;
        }
        sum
    }

    /// Locks `piece` in place: fills its cells, clears the full rows it
    /// touches, and updates the combo and back-to-back state.
    pub fn lock_piece(&mut self, piece: FallingPiece) -> (r: LockResult)
        requires
            !obstructs(*old(self), piece),
        ensures
            lock_outcome(*old(self), piece, *final(self), r),
    {
        let ghost cs = piece_cells(piece);
        proof {
            crate::piece::lemma_free_in_range(*self, piece);
            lemma_row_span(piece);
        }
        let cells = piece.cells();
        proof {
            assert forall|i: int| 0 <= i < 4 implies 0 <= #[trigger] cells@[i].0 < 10 && 0 <= cells@[i].1 < 40 by {
                assert(!occupied_cell(*self, cs[i]));
                assert(crate::piece::cells_view(cells)[i] == (cells@[i].0 as int, cells@[i].1 as int));
            }
        }
        let placed = place_cells(self.cells, &cells);
        let ghost g = placed_grid(self.grid(), cs);
        let (c0, c1, c2, c3) = (cells[0], cells[1], cells[2], cells[3]);
        proof {
            assert(crate::piece::cells_view(cells)[0] == (c0.0 as int, c0.1 as int));
            assert(crate::piece::cells_view(cells)[1] == (c1.0 as int, c1.1 as int));
            assert(crate::piece::cells_view(cells)[2] == (c2.0 as int, c2.1 as int));
            assert(crate::piece::cells_view(cells)[3] == (c3.0 as int, c3.1 as int));
            assert(!occupied_cell(*self, cs[0]));
            assert(!occupied_cell(*self, cs[1]));
            assert(!occupied_cell(*self, cs[2]));
            assert(!occupied_cell(*self, cs[3]));
        }
        let a = if c0.1 <= c1.1 { c0.1 } else { c1.1 };
        let b = if c2.1 <= c3.1 { c2.1 } else { c3.1 };
        let lo = if a <= b { a } else { b };
        let a2 = if c0.1 >= c1.1 { c0.1 } else { c1.1 };
        let b2 = if c2.1 >= c3.1 { c2.1 } else { c3.1 };
        let hi = if a2 >= b2 { a2 } else { b2 };
        let locked_out = c0.1 >= 20 && c1.1 >= 20 && c2.1 >= 20 && c3.1 >= 20;
        assert(lo == min_row(cs) && hi == max_row(cs));
        let (next, cleared) = clear_rows(&placed, lo, hi);
        let pc = all_empty(&next);
        let n_cleared = crate::arrays::rows_len(&cleared);
        proof {
            lemma_cleared_count(g, lo as int, hi as int, 40);
            assert(held_rows(cleared).map_values(|v: i32| v as int).len() == held_rows(cleared).len());
        }
        let kind = PlacementKind::get(n_cleared, piece.tspin);
        let clear = kind.is_clear();
        let combo = if clear { Some(self.combo) } else { None };
        let b2b = clear && kind.is_hard() && self.b2b_bonus;
        if clear {
            self.combo = self.combo.saturating_add(1);
            self.b2b_bonus = kind.is_hard();
        } else {
            self.combo = 0;
        }
        let garbage_sent = if pc {
            10
        } else {
            let c = match combo {
                Some(n) => if n >= 11 { COMBO_GARBAGE[11] } else { COMBO_GARBAGE[n as usize] },
                None => 0,
            };
            kind.garbage() + (if b2b { 1 } else { 0 }) + c
        };
        self.cells = next;
        let r = LockResult {
            placement_kind: kind,
            b2b,
            perfect_clear: pc,
            combo,
            garbage_sent,
            cleared_lines: cleared,
            locked_out,
        };
        proof {
            let before = *old(self);
            assert(self.grid() == compacted(g, lo as int, hi as int));
            assert(held_rows(r.cleared_lines).map_values(|y: i32| y as int) == cleared_rows(g, lo as int, hi as int, 40));
            assert(r.placement_kind == kind_of(cleared_rows(g, lo as int, hi as int, 40).len() as int, piece.tspin));
            assert(r.perfect_clear == forall|y: int| 0 <= y < 40 ==> row_empty(#[trigger] self.grid()[y]));
            assert(r.garbage_sent == lock_garbage(kind, r.b2b, r.combo, pc));
            assert(r.locked_out == (forall|i: int| 0 <= i < 4 ==> #[trigger] cs[i].1 >= 20));
        }
        r
    }

    /// The held piece, if any.
    pub fn hold_piece(&self) -> (r: Option<Piece>)
        ensures
            r == self.held(),
    {
        self.hold_piece
    }

    /// Puts `piece` in the hold slot and returns what was there.
    pub fn hold(&mut self, piece: Piece) -> (r: Option<Piece>)
        ensures
            r == old(self).held(),
            final(self).held() == Some(piece),
            final(self).grid() == old(self).grid(),
            final(self).queue() == old(self).queue(),
            final(self).bag_view() == old(self).bag_view(),
            final(self).combo_view() == old(self).combo_view(),
            final(self).b2b_view() == old(self).b2b_view(),
    {
        let prev = self.hold_piece;
        self.hold_piece = Some(piece);
        prev
    }

    /// The revealed queue, next first.
    pub fn next_queue(&self) -> (r: Vec<Piece>)
        ensures
            r@ == self.queue(),
    {
        let mut out: Vec<Piece> = Vec::new();
        let mut i: usize = 0;
        while i < self.next_pieces.len()
            invariant
                i <= self.next_pieces@.len(),
                out@ == self.next_pieces@.subrange(0, i as int),
            decreases self.next_pieces@.len() - i,
        {
            out.push(self.next_pieces[i]);
            i += 1;
        }
        assert(out@ =~= self.next_pieces@);
        out
    }

    /// Reveals the next piece of the queue: it is appended, and taken out of
    /// the bag; an emptied bag is refilled.
    pub fn add_next_piece(&mut self, piece: Piece)
        ensures
            final(self).queue() == old(self).queue().push(piece),
            final(self).bag_view() == bag_after(old(self).bag_view(), piece),
            final(self).grid() == old(self).grid(),
            final(self).held() == old(self).held(),
            final(self).combo_view() == old(self).combo_view(),
            final(self).b2b_view() == old(self).b2b_view(),
    {
        self.next_pieces.push(piece);
        let i = piece.index();
        self.bag[i] = false;
        let mut any = false;
        let mut k: usize = 0;
        while k < 7
            invariant
                k <= 7,
                self.bag@.len() == 7,
                any == exists|j: int| 0 <= j < k && #[trigger] self.bag@[j],
            decreases 7 - k,
        {
            if self.bag[k] {
                any = true;
            }
            k += 1;
        }
        if !any {
            self.bag = [true; 7];
        }
        proof {
            let removed = old(self).bag@.update(piece_index(piece), false);
            assert(removed =~= old(self).bag_view().update(piece_index(piece), false));
            if any {
                assert(self.bag@ =~= removed);
            } else {
                assert(self.bag@ =~= seq![true, true, true, true, true, true, true]);
            }
        }
    }

    /// Takes the next piece off the front of the queue.
    pub fn advance_queue(&mut self) -> (r: Option<Piece>)
        ensures
            old(self).queue().len() == 0 ==> r == None::<Piece> && final(self).queue() == old(
                self,
            ).queue(),
            old(self).queue().len() > 0 ==> r == Some(old(self).queue()[0]) && final(self).queue()
                == old(self).queue().subrange(1, old(self).queue().len() as int),
            final(self).grid() == old(self).grid(),
            final(self).held() == old(self).held(),
            final(self).bag_view() == old(self).bag_view(),
            final(self).combo_view() == old(self).combo_view(),
            final(self).b2b_view() == old(self).b2b_view(),
    {
        if self.next_pieces.len() == 0 {
            None
        } else {
            let p = self.next_pieces.remove(0);
            assert(self.next_pieces@ =~= old(self).next_pieces@.subrange(1, old(self).next_pieces@.len() as int));
            Some(p)
        }
    }

    /// The next piece if it is revealed, or else the kinds it may still be.
    pub fn get_next_piece(&self) -> (r: Result<Piece, Vec<Piece>>)
        ensures
            self.queue().len() > 0 ==> r == Ok::<Piece, Vec<Piece>>(self.queue()[0]),
            self.queue().len() == 0 ==> r is Err && r->Err_0@ == bag_members(self.bag_view(), 7),
    {
        if self.next_pieces.len() > 0 {
            Ok(self.next_pieces[0])
        } else {
            let mut out: Vec<Piece> = Vec::new();
            let mut i: usize = 0;
            while i < 7
                invariant
                    i <= 7,
                    self.bag@.len() == 7,
                    out@ == bag_members(self.bag_view(), i as int),
                decreases 7 - i,
            {
                if self.bag[i] {
                    out.push(Piece::from_index(i));
                }
                i += 1;
            }
            Err(out)
        }
    }

    /// The piece after the next one, if it is revealed.
    pub fn get_next_next_piece(&self) -> (r: Option<Piece>)
        ensures
            self.queue().len() > 1 ==> r == Some(self.queue()[1]),
            self.queue().len() <= 1 ==> r == None::<Piece>,
    {
        if self.next_pieces.len() > 1 {
            Some(self.next_pieces[1])
        } else {
            None
        }
    }

    /// An identical board.
    pub fn duplicate(&self) -> (r: Board)
        ensures
            r.same_as(*self),
    {
        let cells: [Row; 40] = self.cells;
        let mut queue: Vec<Piece> = Vec::new();
        let mut j: usize = 0;
        while j < self.next_pieces.len()
            invariant
                j <= self.next_pieces@.len(),
                queue@ == self.next_pieces@.subrange(0, j as int),
            decreases self.next_pieces@.len() - j,
        {
            queue.push(self.next_pieces[j]);
            j += 1;
        }
        assert(queue@ =~= self.next_pieces@);
        let r = Board {
            cells,
            combo: self.combo,
            b2b_bonus: self.b2b_bonus,
            hold_piece: self.hold_piece,
            next_pieces: queue,
            bag: self.bag,
        };
        r
    }
}

/// The kinds whose index is below `n` and which the bag still holds.
pub open spec fn bag_members(bag: Seq<bool>, n: int) -> Seq<Piece>
    decreases n,
{
    if n <= 0 {
        Seq::empty()
    } else if bag[n - 1] {
        bag_members(bag, n - 1).push(piece_of_index(n - 1))
    } else {
        bag_members(bag, n - 1)
    }
}

/// The bag after `p` is revealed: `p` leaves it, and an emptied bag is refilled.
pub open spec fn bag_after(bag: Seq<bool>, p: Piece) -> Seq<bool> {
    let removed = bag.update(piece_index(p), false);
    if exists|j: int| 0 <= j < 7 && #[trigger] removed[j] {
        removed
    } else {
        seq![true, true, true, true, true, true, true]
    }
}

/// The rows of a cell array, as sequences.
pub open spec fn grid_of(cells: [Row; 40]) -> Seq<Seq<bool>> {
    cells@.map_values(|r: Row| r@)
}

/// Whether a cell is occupied on the board.
pub open spec fn occupied_cell(b: Board, c: (int, int)) -> bool {
    b.occupied_at(c.0, c.1)
}

/// The field with the given cells filled.
pub open spec fn placed_grid(g: Seq<Seq<bool>>, cells: Seq<(int, int)>) -> Seq<Seq<bool>> {
    Seq::new(40, |y: int| Seq::new(10, |x: int| g[y][x] || cells.contains((x, y))))
}

/// Whether row `y` of `g` is cleared when rows `lo..=hi` may clear.
pub open spec fn is_cleared(g: Seq<Seq<bool>>, lo: int, hi: int, y: int) -> bool {
    lo <= y <= hi && row_full(g[y])
}

/// The rows below `n` that stay, bottom first.
pub open spec fn kept_rows(g: Seq<Seq<bool>>, lo: int, hi: int, n: int) -> Seq<Seq<bool>>
    decreases n,
{
    if n <= 0 {
        Seq::empty()
    } else if is_cleared(g, lo, hi, n - 1) {
        kept_rows(g, lo, hi, n - 1)
    } else {
        kept_rows(g, lo, hi, n - 1).push(g[n - 1])
    }
}

/// The indices of the rows below `n` that clear, ascending.
pub open spec fn cleared_rows(g: Seq<Seq<bool>>, lo: int, hi: int, n: int) -> Seq<int>
    decreases n,
{
    if n <= 0 {
        Seq::empty()
    } else if is_cleared(g, lo, hi, n - 1) {
        cleared_rows(g, lo, hi, n - 1).push(n - 1)
    } else {
        cleared_rows(g, lo, hi, n - 1)
    }
}

/// A row of ten empty cells.
pub open spec fn blank_row() -> Seq<bool> {
    Seq::new(10, |x: int| false)
}

/// The field after the cleared rows are removed and the rest fall down.
pub open spec fn compacted(g: Seq<Seq<bool>>, lo: int, hi: int) -> Seq<Seq<bool>> {
    let kept = kept_rows(g, lo, hi, 40);
    kept + Seq::new((40 - kept.len()) as nat, |i: int| blank_row())
}

pub open spec fn min_row(cs: Seq<(int, int)>) -> int {
    let a = if cs[0].1 <= cs[1].1 { cs[0].1 } else { cs[1].1 };
    let b = if cs[2].1 <= cs[3].1 { cs[2].1 } else { cs[3].1 };
    if a <= b { a } else { b }
}

pub open spec fn max_row(cs: Seq<(int, int)>) -> int {
    let a = if cs[0].1 >= cs[1].1 { cs[0].1 } else { cs[1].1 };
    let b = if cs[2].1 >= cs[3].1 { cs[2].1 } else { cs[3].1 };
    if a >= b { a } else { b }
}

/// The garbage a lock sends.
pub open spec fn lock_garbage(kind: PlacementKind, b2b: bool, combo: Option<u32>, pc: bool) -> u32 {
    if pc {
        10
    } else {
        let c = match combo {
            Some(n) => if n >= 11 { combo_garbage_table()[11] as int } else { combo_garbage_table()[n as int] as int },
            None => 0,
        };
        (kind_garbage(kind) + (if b2b { 1int } else { 0 }) + c) as u32
    }
}

/// Whether `r` and `after` are what locking `p` on `before` gives.
pub open spec fn lock_outcome(before: Board, p: FallingPiece, after: Board, r: LockResult) -> bool {
    let cs = piece_cells(p);
    let g = placed_grid(before.grid(), cs);
    let lo = min_row(cs);
    let hi = max_row(cs);
    let cleared = cleared_rows(g, lo, hi, 40);
    let kind = kind_of(cleared.len() as int, p.tspin);
    let clear = kind_is_clear(kind);
    let pc = forall|y: int| 0 <= y < 40 ==> row_empty(#[trigger] after.grid()[y]);
    &&& after.grid() == compacted(g, lo, hi)
    &&& held_rows(r.cleared_lines).map_values(|y: i32| y as int) == cleared
    &&& r.placement_kind == kind
    &&& r.perfect_clear == pc
    &&& r.combo == (if clear { Some(before.combo_view()) } else { None::<u32> })
    &&& after.combo_view() == (if !clear { 0 } else if before.combo_view() == u32::MAX { u32::MAX } else {
        (before.combo_view() + 1) as u32
    })
    &&& r.b2b == (clear && kind_is_hard(kind) && before.b2b_view())
    &&& after.b2b_view() == (if clear { kind_is_hard(kind) } else { before.b2b_view() })
    &&& r.garbage_sent == lock_garbage(kind, r.b2b, r.combo, pc)
    &&& r.locked_out == (forall|i: int| 0 <= i < 4 ==> #[trigger] cs[i].1 >= 20)
    &&& after.queue() == before.queue()
    &&& after.held() == before.held()
    &&& after.bag_view() == before.bag_view()
}

proof fn lemma_cleared_count(g: Seq<Seq<bool>>, lo: int, hi: int, n: int)
    requires
        0 <= n,
    ensures
        cleared_rows(g, lo, hi, n).len() + kept_rows(g, lo, hi, n).len() == n,
        cleared_rows(g, lo, hi, n).len() <= if n <= lo { 0 } else if n <= hi + 1 { n - lo } else if hi
            >= lo { hi - lo + 1 } else { 0 },
        forall|i: int| 0 <= i < cleared_rows(g, lo, hi, n).len() ==> 0 <= #[trigger] cleared_rows(g, lo, hi, n)[i] < n,
    decreases n,
{
    if n > 0 {
        lemma_cleared_count(g, lo, hi, n - 1);
    }
}

/// A piece's cells span at most four rows.
proof fn lemma_row_span(p: FallingPiece)
    ensures
        piece_cells(p).len() == 4,
        max_row(piece_cells(p)) - min_row(piece_cells(p)) <= 3,
        min_row(piece_cells(p)) <= max_row(piece_cells(p)),
{
    reveal_with_fuel(Seq::map_values, 1);
    lemma_offsets_small(p.kind, 0);
    let s = state_cells(p.kind);
    assert(piece_cells(p)[0].1 == s[0].1 + p.y);
    assert(piece_cells(p)[1].1 == s[1].1 + p.y);
    assert(piece_cells(p)[2].1 == s[2].1 + p.y);
    assert(piece_cells(p)[3].1 == s[3].1 + p.y);
}

/// The cell array with the given cells filled.
fn place_cells(start: [Row; 40], cells: &[(i32, i32); 4]) -> (placed: [Row; 40])
    requires
        forall|i: int| 0 <= i < 4 ==> 0 <= #[trigger] cells@[i].0 < 10 && 0 <= cells@[i].1 < 40,
    ensures
        grid_of(placed) == placed_grid(grid_of(start), crate::piece::cells_view(*cells)),
{
    let ghost cs = crate::piece::cells_view(*cells);
    let mut placed: [Row; 40] = start;
    let mut i: usize = 0;
    while i < 4
        invariant
            i <= 4,
            cs == crate::piece::cells_view(*cells),
            forall|i: int| 0 <= i < 4 ==> 0 <= #[trigger] cells@[i].0 < 10 && 0 <= cells@[i].1 < 40,
            forall|y: int, x: int| 0 <= y < 40 && 0 <= x < 10 ==> #[trigger] grid_of(placed)[y][x] == (grid_of(start)[y][x]
                || exists|j: int| 0 <= j < i && cs[j] == (x, y)),
        decreases 4 - i,
    {
        let (x, y) = cells[i];
        assert(cs[i as int] == (x as int, y as int));
        let ghost prev = placed;
        let mut row: Row = placed[y as usize];
        row[x as usize] = true;
        placed[y as usize] = row;
        proof {
            assert(grid_of(placed) =~= grid_of(prev).update(y as int, grid_of(prev)[y as int].update(x as int, true)));
            assert forall|yy: int, xx: int| 0 <= yy < 40 && 0 <= xx < 10 implies #[trigger] grid_of(placed)[yy][xx] == (grid_of(start)[yy][xx]
                || exists|j: int| 0 <= j < i + 1 && cs[j] == (xx, yy)) by {
                if (xx, yy) == cs[i as int] {
                    assert(cs[i as int] == (xx, yy));
                }
            }
        }
        i += 1;
    }
    let ghost g = placed_grid(grid_of(start), cs);
    proof {
        assert forall|y: int| 0 <= y < 40 implies #[trigger] grid_of(placed)[y] == g[y] by {
            assert forall|x: int| 0 <= x < 10 implies #[trigger] grid_of(placed)[y][x] == g[y][x] by {
                if cs.contains((x, y)) {
                    let j = choose|j: int| 0 <= j < cs.len() && cs[j] == (x, y);
                    assert(exists|j: int| 0 <= j < 4 && cs[j] == (x, y));
                }
            }
            assert(grid_of(placed)[y] =~= g[y]);
        }
        assert(grid_of(placed) =~= g);
    }
    placed
}

/// Removes the full rows among `lo..=hi`, letting the rows above fall.
fn clear_rows(placed: &[Row; 40], lo: i32, hi: i32) -> (r: ([Row; 40], ArrayVec<i32, 4>))
    requires
        0 <= lo <= hi < 40,
        hi - lo <= 3,
    ensures
        grid_of(r.0) == compacted(grid_of(*placed), lo as int, hi as int),
        held_rows(r.1).map_values(|v: i32| v as int) == cleared_rows(grid_of(*placed), lo as int, hi as int, 40),
{
    let ghost g = grid_of(*placed);
    let empty: Row = [false; 10];
    let mut next: [Row; 40] = [empty; 40];
    proof {
        assert forall|j: int| 0 <= j < 40 implies #[trigger] grid_of(next)[j] == blank_row() by {
            assert(next@[j] == empty);
            assert(empty@ =~= blank_row());
        }
    }
    let mut cleared = rows_new();
    let mut k: usize = 0;
    let mut y: usize = 0;
    while y < 40
        invariant
            y <= 40,
            g == grid_of(*placed),
            0 <= lo <= hi < 40,
            hi - lo <= 3,
            k as int == kept_rows(g, lo as int, hi as int, y as int).len(),
            forall|j: int| 0 <= j < k ==> #[trigger] grid_of(next)[j] == kept_rows(g, lo as int, hi as int, y as int)[j],
            forall|j: int| k <= j < 40 ==> #[trigger] grid_of(next)[j] == blank_row(),
            held_rows(cleared).map_values(|v: i32| v as int) == cleared_rows(g, lo as int, hi as int, y as int),
        decreases 40 - y,
    {
        proof {
            lemma_cleared_count(g, lo as int, hi as int, y as int);
            lemma_cleared_count(g, lo as int, hi as int, y as int + 1);
        }
        let row = placed[y];
        let mut full = true;
        let mut x: usize = 0;
        while x < 10
            invariant
                x <= 10,
                row@ == g[y as int],
                full == forall|xx: int| 0 <= xx < x ==> #[trigger] row@[xx],
            decreases 10 - x,
        {
            if !row[x] {
                full = false;
            }
            x += 1;
        }
        let clears = full && lo as usize <= y && y <= hi as usize;
        assert(clears == is_cleared(g, lo as int, hi as int, y as int));
        if clears {
            rows_push(&mut cleared, y as i32);
            assert(held_rows(cleared).map_values(|v: i32| v as int) =~= cleared_rows(g, lo as int, hi as int, y as int + 1));
        } else {
            let ghost prev = next;
            next[k] = row;
            proof {
                assert(grid_of(next) =~= grid_of(prev).update(k as int, row@));
                assert(kept_rows(g, lo as int, hi as int, y as int + 1) == kept_rows(g, lo as int, hi as int, y as int).push(g[y as int]));
            }
            k += 1;
        }
        y += 1;
    }
    proof {
        lemma_cleared_count(g, lo as int, hi as int, 40);
        assert(grid_of(next) =~= compacted(g, lo as int, hi as int));
    }
    (next, cleared)
}

/// Whether no cell of the array is filled.
fn all_empty(cells: &[Row; 40]) -> (r: bool)
    ensures
        r == forall|j: int| 0 <= j < 40 ==> row_empty(#[trigger] grid_of(*cells)[j]),
{
    let mut pc = true;
    let mut yy: usize = 0;
    while yy < 40
        invariant
            yy <= 40,
            pc == forall|j: int| 0 <= j < yy ==> row_empty(#[trigger] grid_of(*cells)[j]),
        decreases 40 - yy,
    {
        let row = cells[yy];
        let mut x: usize = 0;
        let mut empty_row = true;
        while x < 10
            invariant
                x <= 10,
                row@ == grid_of(*cells)[yy as int],
                empty_row == forall|xx: int| 0 <= xx < x ==> !#[trigger] row@[xx],
            decreases 10 - x,
        {
            if row[x] {
                empty_row = false;
            }
            x += 1;
        }
        if !empty_row {
            pc = false;
        }
        yy += 1;
    }
    pc
}

/// The sum of the heights of the first `n` columns.
pub open spec fn column_heights_sum(grid: Seq<Seq<bool>>, n: int) -> int
    decreases n,
{
    if n <= 0 {
        0
    } else {
        column_heights_sum(grid, n - 1) + column_height(grid, n - 1, 40)
    }
}

pub proof fn lemma_column_height_bounds(grid: Seq<Seq<bool>>, x: int, n: int)
    requires
        0 <= n,
    ensures
        0 <= column_height(grid, x, n) <= n,
    decreases n,
{
    if n > 0 {
        lemma_column_height_bounds(grid, x, n - 1);
    }
}

} // verus!
