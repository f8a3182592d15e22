//! What locking a piece produces, and the running statistics over locks.
use vstd::prelude::*;
use arrayvec::ArrayVec;
use crate::arrays::{held_rows, rows_len, rows_clone};
use crate::piece::TspinStatus;

verus! {

/// The outcome of committing a placement.
#[derive(Debug)]
pub struct LockResult {
    pub placement_kind: PlacementKind,
    pub b2b: bool,
    pub perfect_clear: bool,
    pub combo: Option<u32>,
    pub garbage_sent: u32,
    pub cleared_lines: ArrayVec<i32, 4>,
    pub locked_out: bool,
}

/// The kind of a lock: how many lines it cleared, and whether it was a T-spin.
#[derive(Copy, Clone, Debug, Hash, PartialEq, Eq, Structural)]
pub enum PlacementKind {
    NoClear,
    Clear1,
    Clear2,
    Clear3,
    Clear4,
    Tspin,
    Tspin1,
    Tspin2,
    Tspin3,
    Tspin4,
}

/// Extra garbage for the combo count, by count; counts from 11 on use the last entry.
pub const COMBO_GARBAGE: [u32; 12] = [0, 0, 1, 1, 2, 2, 3, 3, 4, 4, 4, 5];

/// The entries of the combo garbage table.
pub open spec fn combo_garbage_table() -> Seq<u32> {
    seq![0, 0, 1, 1, 2, 2, 3, 3, 4, 4, 4, 5]
}

pub open spec fn kind_garbage(k: PlacementKind) -> u32 {
    match k {
        PlacementKind::NoClear | PlacementKind::Tspin | PlacementKind::Clear1 => 0,
        PlacementKind::Clear2 => 1,
        PlacementKind::Clear3 | PlacementKind::Tspin1 => 2,
        PlacementKind::Clear4 | PlacementKind::Tspin2 => 4,
        PlacementKind::Tspin3 => 6,
        PlacementKind::Tspin4 => 8,
    }
}

pub open spec fn kind_is_hard(k: PlacementKind) -> bool {
    match k {
        PlacementKind::Clear4 | PlacementKind::Tspin | PlacementKind::Tspin1 | PlacementKind::Tspin2
        | PlacementKind::Tspin3 | PlacementKind::Tspin4 => true,
        _ => false,
    }
}

pub open spec fn kind_is_clear(k: PlacementKind) -> bool {
    match k {
        PlacementKind::NoClear | PlacementKind::Tspin => false,
        _ => true,
    }
}

/// The kind of a lock that cleared `cleared` lines with the given T-spin status.
pub open spec fn kind_of(cleared: int, tspin: TspinStatus) -> PlacementKind {
    let spin = tspin == TspinStatus::Full;
    if cleared == 0 {
        if spin { PlacementKind::Tspin } else { PlacementKind::NoClear }
    } else if cleared == 1 {
        if spin { PlacementKind::Tspin1 } else { PlacementKind::Clear1 }
    } else if cleared == 2 {
        if spin { PlacementKind::Tspin2 } else { PlacementKind::Clear2 }
    } else if cleared == 3 {
        if spin { PlacementKind::Tspin3 } else { PlacementKind::Clear3 }
    } else {
        if spin { PlacementKind::Tspin4 } else { PlacementKind::Clear4 }
    }
}

/// The number of lines a kind of lock clears.
pub open spec fn kind_lines(k: PlacementKind) -> int {
    match k {
        PlacementKind::NoClear | PlacementKind::Tspin => 0,
        PlacementKind::Clear1 | PlacementKind::Tspin1 => 1,
        PlacementKind::Clear2 | PlacementKind::Tspin2 => 2,
        PlacementKind::Clear3 | PlacementKind::Tspin3 => 3,
        PlacementKind::Clear4 | PlacementKind::Tspin4 => 4,
    }
}

pub open spec fn kind_name(k: PlacementKind) -> &'static str {
    match k {
        PlacementKind::NoClear => "",
        PlacementKind::Clear1 => "Single",
        PlacementKind::Clear2 => "Double",
        PlacementKind::Clear3 => "Triple",
        PlacementKind::Clear4 => "Quad",
        PlacementKind::Tspin => "T-Spin",
        PlacementKind::Tspin1 => "T-Spin Single",
        PlacementKind::Tspin2 => "T-Spin Double",
        PlacementKind::Tspin3 => "T-Spin Triple",
        PlacementKind::Tspin4 => "T-Spin Quad",
    }
}

pub open spec fn kind_short_name(k: PlacementKind) -> &'static str {
    match k {
        PlacementKind::NoClear => "...",
        PlacementKind::Clear1 => "S",
        PlacementKind::Clear2 => "D",
        PlacementKind::Clear3 => "T",
        PlacementKind::Clear4 => "Q",
        PlacementKind::Tspin => "TS",
        PlacementKind::Tspin1 => "TSS",
        PlacementKind::Tspin2 => "TSD",
        PlacementKind::Tspin3 => "TST",
        PlacementKind::Tspin4 => "TSQ",
    }
}

impl PlacementKind {
    /// The amount of garbage this clear kind normally sends.
    pub fn garbage(self) -> (r: u32)
        ensures
            r == kind_garbage(self),
    {
        match self {
            PlacementKind::NoClear | PlacementKind::Tspin | PlacementKind::Clear1 => 0,
            PlacementKind::Clear2 => 1,
            PlacementKind::Clear3 | PlacementKind::Tspin1 => 2,
            PlacementKind::Clear4 | PlacementKind::Tspin2 => 4,
            PlacementKind::Tspin3 => 6,
            PlacementKind::Tspin4 => 8,
        }
    }

    /// Whether or not this placement does back-to-backs.
    pub fn is_hard(self) -> (r: bool)
        ensures
            r == kind_is_hard(self),
    {
        match self {
            PlacementKind::Clear4 | PlacementKind::Tspin | PlacementKind::Tspin1 | PlacementKind::Tspin2
            | PlacementKind::Tspin3 | PlacementKind::Tspin4 => true,
            _ => false,
        }
    }

    /// Whether or not this placement did a line clear.
    pub fn is_clear(self) -> (r: bool)
        ensures
            r == kind_is_clear(self),
    {
        match self {
            PlacementKind::NoClear | PlacementKind::Tspin => false,
            _ => true,
        }
    }

    /// The kind of a lock that cleared `cleared` lines (at most four).
    pub fn get(cleared: usize, tspin: TspinStatus) -> (r: Self)
        requires
            cleared <= 4,
        ensures
            r == kind_of(cleared as int, tspin),
            kind_lines(r) == cleared,
    {
        let spin = match tspin {
            TspinStatus::Full => true,
            TspinStatus::NoSpin => false,
        };
        if cleared == 0 {
            if spin { PlacementKind::Tspin } else { PlacementKind::NoClear }
        } else if cleared == 1 {
            if spin { PlacementKind::Tspin1 } else { PlacementKind::Clear1 }
        } else if cleared == 2 {
            if spin { PlacementKind::Tspin2 } else { PlacementKind::Clear2 }
        } else if cleared == 3 {
            if spin { PlacementKind::Tspin3 } else { PlacementKind::Clear3 }
        } else {
            if spin { PlacementKind::Tspin4 } else { PlacementKind::Clear4 }
        }
    }

    /// The display name of this kind; empty for a plain lock.
    pub fn name(self) -> (r: &'static str)
        ensures
            r == kind_name(self),
    {
        match self {
            PlacementKind::NoClear => "",
            PlacementKind::Clear1 => "Single",
            PlacementKind::Clear2 => "Double",
            PlacementKind::Clear3 => "Triple",
            PlacementKind::Clear4 => "Quad",
            PlacementKind::Tspin => "T-Spin",
            PlacementKind::Tspin1 => "T-Spin Single",
            PlacementKind::Tspin2 => "T-Spin Double",
            PlacementKind::Tspin3 => "T-Spin Triple",
            PlacementKind::Tspin4 => "T-Spin Quad",
        }
    }

    /// The abbreviated name of this kind.
    pub fn short_name(self) -> (r: &'static str)
        ensures
            r == kind_short_name(self),
    {
        match self {
            PlacementKind::NoClear => "...",
            PlacementKind::Clear1 => "S",
            PlacementKind::Clear2 => "D",
            PlacementKind::Clear3 => "T",
            PlacementKind::Clear4 => "Q",
            PlacementKind::Tspin => "TS",
            PlacementKind::Tspin1 => "TSS",
            PlacementKind::Tspin2 => "TSD",
            PlacementKind::Tspin3 => "TST",
            PlacementKind::Tspin4 => "TSQ",
        }
    }
}

impl Default for PlacementKind {
    fn default() -> (r: Self)
        ensures
            r == PlacementKind::NoClear,
    {
        PlacementKind::NoClear
    }
}

impl LockResult {
    /// A copy of this result.
    pub fn duplicate(&self) -> (r: LockResult)
        ensures
            r.placement_kind == self.placement_kind,
            r.b2b == self.b2b,
            r.perfect_clear == self.perfect_clear,
            r.combo == self.combo,
            r.garbage_sent == self.garbage_sent,
            held_rows(r.cleared_lines) == held_rows(self.cleared_lines),
            r.locked_out == self.locked_out,
    {
        LockResult {
            placement_kind: self.placement_kind,
            b2b: self.b2b,
            perfect_clear: self.perfect_clear,
            combo: self.combo,
            garbage_sent: self.garbage_sent,
            cleared_lines: rows_clone(&self.cleared_lines),
            locked_out: self.locked_out,
        }
    }
}

/// Running totals over a game's locks.
#[derive(Copy, Clone, Debug, PartialEq, Eq, Hash, Default)]
pub struct Statistics {
    pub pieces: u64,
    pub lines: u64,
    pub attack: u64,
    pub singles: u64,
    pub doubles: u64,
    pub triples: u64,
    pub quads: u64,
    pub tspin_zeros: u64,
    pub tspin_singles: u64,
    pub tspin_doubles: u64,
    pub tspin_triples: u64,
    pub tspin_quads: u64,
    pub perfect_clears: u64,
    pub max_combo: u64,
}

/// Adds one to a counter, saturating at the largest `u64`.
pub open spec fn bump(n: u64) -> u64 {
    if n == u64::MAX { n } else { (n + 1) as u64 }
}

/// Adds to a counter, saturating at the largest `u64`.
pub open spec fn plus(n: u64, k: int) -> u64 {
    if n + k > u64::MAX { u64::MAX } else { (n + k) as u64 }
}

/// The statistics after recording one more lock.
pub open spec fn stats_after(s: Statistics, kind: PlacementKind, pc: bool, combo: Option<u32>, garbage: u32, lines: int) -> Statistics {
    let base = Statistics {
        attack: plus(s.attack, garbage as int),
        lines: plus(s.lines, lines),
        pieces: bump(s.pieces),
        perfect_clears: if pc { bump(s.perfect_clears) } else { s.perfect_clears },
        max_combo: match combo {
            Some(c) => if c as u64 > s.max_combo { c as u64 } else { s.max_combo },
            None => s.max_combo,
        },
        ..s
    };
    match kind {
        PlacementKind::NoClear => base,
        PlacementKind::Clear1 => Statistics { singles: bump(s.singles), ..base },
        PlacementKind::Clear2 => Statistics { doubles: bump(s.doubles), ..base },
        PlacementKind::Clear3 => Statistics { triples: bump(s.triples), ..base },
        PlacementKind::Clear4 => Statistics { quads: bump(s.quads), ..base },
        PlacementKind::Tspin => Statistics { tspin_zeros: bump(s.tspin_zeros), ..base },
        PlacementKind::Tspin1 => Statistics { tspin_singles: bump(s.tspin_singles), ..base },
        PlacementKind::Tspin2 => Statistics { tspin_doubles: bump(s.tspin_doubles), ..base },
        PlacementKind::Tspin3 => Statistics { tspin_triples: bump(s.tspin_triples), ..base },
        PlacementKind::Tspin4 => Statistics { tspin_quads: bump(s.tspin_quads), ..base },
    }
}

impl Statistics {
    /// Records one lock. The counters saturate at the largest `u64`.
    pub fn update(&mut self, l: &LockResult)
        ensures
            *final(self) == stats_after(
                *old(self),
                l.placement_kind,
                l.perfect_clear,
                l.combo,
                l.garbage_sent,
                held_rows(l.cleared_lines).len() as int,
            ),
    {
        self.attack = self.attack.saturating_add(l.garbage_sent as u64);
        self.lines = self.lines.saturating_add(rows_len(&l.cleared_lines) as u64);
        self.pieces = self.pieces.saturating_add(1);
        if l.perfect_clear {
            self.perfect_clears = self.perfect_clears.saturating_add(1);
        }
        if let Some(combo) = l.combo {
            if combo as u64 > self.max_combo {
                self.max_combo = combo as u64;
            }
        }
        match l.placement_kind {
            PlacementKind::NoClear => {},
            PlacementKind::Clear1 => self.singles = self.singles.saturating_add(1),
            PlacementKind::Clear2 => self.doubles = self.doubles.saturating_add(1),
            PlacementKind::Clear3 => self.triples = self.triples.saturating_add(1),
            PlacementKind::Clear4 => self.quads = self.quads.saturating_add(1),
            PlacementKind::Tspin => self.tspin_zeros = self.tspin_zeros.saturating_add(1),
            PlacementKind::Tspin1 => self.tspin_singles = self.tspin_singles.saturating_add(1),
            PlacementKind::Tspin2 => self.tspin_doubles = self.tspin_doubles.saturating_add(1),
            PlacementKind::Tspin3 => self.tspin_triples = self.tspin_triples.saturating_add(1),
            PlacementKind::Tspin4 => self.tspin_quads = self.tspin_quads.saturating_add(1),
        }
    }
}

} // verus!
