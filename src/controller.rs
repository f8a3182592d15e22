//! The buttons of one input frame, and their packing into a 16-bit value.
use vstd::prelude::*;

verus! {

/// Which buttons are held in one input frame.
#[derive(Copy, Clone, Debug, Default, Hash, PartialEq, Eq, Structural)]
pub struct Controller {
    pub left: bool,
    pub right: bool,
    pub rotate_right: bool,
    pub rotate_left: bool,
    pub rotate_180: bool,
    pub meme_flip: bool,
    pub soft_drop: bool,
    pub hard_drop: bool,
    pub hold: bool,
}

/// `weight` if the flag is set, else 0.
pub open spec fn flag(b: bool, weight: int) -> int {
    if b { weight } else { 0 }
}

/// The packed value: bit 0 left, 1 right, 2 rotate left, 3 rotate right,
/// 4 rotate 180, 5 hold, 6 soft drop, 7 hard drop, 8 meme flip.
pub open spec fn packed(c: Controller) -> int {
    flag(c.left, 1) + flag(c.right, 2) + flag(c.rotate_left, 4) + flag(c.rotate_right, 8) + flag(c.rotate_180, 16)
        + flag(c.hold, 32) + flag(c.soft_drop, 64) + flag(c.hard_drop, 128) + flag(c.meme_flip, 256)
}

/// Whether the bit of weight `weight` is set in `v`.
pub open spec fn bit_set(v: int, weight: int) -> bool {
    (v / weight) % 2 == 1
}

/// The buttons a packed value holds; bits above the ninth are ignored.
pub open spec fn unpacked(v: int) -> Controller {
    Controller {
        left: bit_set(v, 1),
        right: bit_set(v, 2),
        rotate_left: bit_set(v, 4),
        rotate_right: bit_set(v, 8),
        rotate_180: bit_set(v, 16),
        hold: bit_set(v, 32),
        soft_drop: bit_set(v, 64),
        hard_drop: bit_set(v, 128),
        meme_flip: bit_set(v, 256),
    }
}

impl Controller {
    /// The buttons packed one per bit: see `packed`.
    pub fn to_bits(&self) -> (r: u16)
        ensures
            r == packed(*self),
    {
        let mut v: u16 = 0;
        if self.left {
            v = v + 1;
        }
        if self.right {
            v = v + 2;
        }
        if self.rotate_left {
            v = v + 4;
        }
        if self.rotate_right {
            v = v + 8;
        }
        if self.rotate_180 {
            v = v + 16;
        }
        if self.hold {
            v = v + 32;
        }
        if self.soft_drop {
            v = v + 64;
        }
        if self.hard_drop {
            v = v + 128;
        }
        if self.meme_flip {
            v = v + 256;
        }
        v
    }

    /// The buttons of a packed value: see `unpacked`.
    pub fn from_bits(v: u64) -> (r: Controller)
        ensures
            r == unpacked(v as int),
    {
        Controller {
            left: (v / 1) % 2 == 1,
            right: (v / 2) % 2 == 1,
            rotate_left: (v / 4) % 2 == 1,
            rotate_right: (v / 8) % 2 == 1,
            rotate_180: (v / 16) % 2 == 1,
            hold: (v / 32) % 2 == 1,
            soft_drop: (v / 64) % 2 == 1,
            hard_drop: (v / 128) % 2 == 1,
            meme_flip: (v / 256) % 2 == 1,
        }
    }
}

/// Unpacking a packed frame gives back the same buttons.
pub proof fn lemma_bits_round_trip(c: Controller)
    ensures
        unpacked(packed(c)) == c,
{
    let v = packed(c);
    assert(0 <= v < 512);
    assert(bit_set(v, 1) == c.left) by (nonlinear_arith)
        requires v == packed(c);
    assert(bit_set(v, 2) == c.right) by (nonlinear_arith)
        requires v == packed(c);
    assert(bit_set(v, 4) == c.rotate_left) by (nonlinear_arith)
        requires v == packed(c);
    assert(bit_set(v, 8) == c.rotate_right) by (nonlinear_arith)
        requires v == packed(c);
    assert(bit_set(v, 16) == c.rotate_180) by (nonlinear_arith)
        requires v == packed(c);
    assert(bit_set(v, 32) == c.hold) by (nonlinear_arith)
        requires v == packed(c);
    assert(bit_set(v, 64) == c.soft_drop) by (nonlinear_arith)
        requires v == packed(c);
    assert(bit_set(v, 128) == c.hard_drop) by (nonlinear_arith)
        requires v == packed(c);
    assert(bit_set(v, 256) == c.meme_flip) by (nonlinear_arith)
        requires v == packed(c);
}

} // verus!
