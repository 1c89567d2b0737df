//! Compass directions and the per-cell set of open directions.

use vstd::prelude::*;

verus! {

/// One of the eight compass directions: the four cardinals and the four
/// corners between them.
#[derive(Copy, Clone, Debug, PartialEq, Eq, Structural)]
pub enum Direction {
    N,
    E,
    S,
    W,
    NEC,
    SEC,
    SWC,
    NWC,
}

impl Direction {
    /// The single-bit mask of the direction.
    pub open spec fn mask(self) -> u8 {
        match self {
            Direction::N => 1,
            Direction::E => 2,
            Direction::S => 4,
            Direction::W => 8,
            Direction::NEC => 16,
            Direction::SEC => 32,
            Direction::SWC => 64,
            Direction::NWC => 128,
        }
    }

    /// Horizontal component of the unit step; east is positive.
    pub open spec fn dx(self) -> int {
        match self {
            Direction::N | Direction::S => 0,
            Direction::E | Direction::NEC | Direction::SEC => 1,
            Direction::W | Direction::SWC | Direction::NWC => -1,
        }
    }

    /// Vertical component of the unit step; south is positive.
    pub open spec fn dy(self) -> int {
        match self {
            Direction::E | Direction::W => 0,
            Direction::S | Direction::SEC | Direction::SWC => 1,
            Direction::N | Direction::NEC | Direction::NWC => -1,
        }
    }

    /// The direction turned by half a circle.
    pub open spec fn opposite_spec(self) -> Direction {
        match self {
            Direction::N => Direction::S,
            Direction::E => Direction::W,
            Direction::S => Direction::N,
            Direction::W => Direction::E,
            Direction::NEC => Direction::SWC,
            Direction::SEC => Direction::NWC,
            Direction::SWC => Direction::NEC,
            Direction::NWC => Direction::SEC,
        }
    }

    /// Whether the direction is one of north, east, south and west.
    pub open spec fn is_cardinal(self) -> bool {
        self == Direction::N || self == Direction::E || self == Direction::S || self
            == Direction::W
    }

    /// The four cardinals in their fixed order.
    pub open spec fn cardinal_seq() -> Seq<Direction> {
        seq![Direction::N, Direction::E, Direction::S, Direction::W]
    }

    /// The unit step `(dx, dy)` that the direction takes on the grid.
    pub fn into_dir(self) -> (step: (i8, i8))
        ensures
            step.0 == self.dx(),
            step.1 == self.dy(),
    {
        match self {
            Direction::N => (0, -1),
            Direction::E => (1, 0),
            Direction::S => (0, 1),
            Direction::W => (-1, 0),
            Direction::NEC => (1, -1),
            Direction::SEC => (1, 1),
            Direction::SWC => (-1, 1),
            Direction::NWC => (-1, -1),
        }
    }

    /// The direction that points the other way.
    pub fn opposite(self) -> (other: Direction)
        ensures
            other == self.opposite_spec(),
            other.dx() == -self.dx(),
            other.dy() == -self.dy(),
            other.is_cardinal() == self.is_cardinal(),
    {
        match self {
            Direction::N => Direction::S,
            Direction::E => Direction::W,
            Direction::S => Direction::N,
            Direction::W => Direction::E,
            Direction::NEC => Direction::SWC,
            Direction::SEC => Direction::NWC,
            Direction::SWC => Direction::NEC,
            Direction::NWC => Direction::SEC,
        }
    }

    /// North, east, south, west: the default order of exploration.
    pub fn cardinals() -> (all: [Direction; 4])
        ensures
            all@ == Direction::cardinal_seq(),
    {
        [Direction::N, Direction::E, Direction::S, Direction::W]
    }

    /// The direction's flag as a byte with exactly one bit set.
    pub fn bit(self) -> (m: u8)
        ensures
            m == self.mask(),
    {
        match self {
            Direction::N => 1,
            Direction::E => 2,
            Direction::S => 4,
            Direction::W => 8,
            Direction::NEC => 16,
            Direction::SEC => 32,
            Direction::SWC => 64,
            Direction::NWC => 128,
        }
    }
}

/// Turning around twice gives the direction back, and no direction is its
/// own opposite.
pub proof fn lemma_opposite_involution(d: Direction)
    ensures
        d.opposite_spec().opposite_spec() == d,
        d.opposite_spec() != d,
        d.opposite_spec().dx() == -d.dx(),
        d.opposite_spec().dy() == -d.dy(),
        d.opposite_spec().is_cardinal() == d.is_cardinal(),
{
}

/// Two masks share a bit only when they belong to the same direction.
pub proof fn lemma_masks_disjoint(a: Direction, b: Direction)
    ensures
        (a.mask() & b.mask() != 0) == (a == b),
        a.mask() != 0,
{
    let m = a.mask();
    let k = b.mask();
    assert((m == 1 || m == 2 || m == 4 || m == 8 || m == 16 || m == 32 || m == 64 || m == 128) && (
    k == 1 || k == 2 || k == 4 || k == 8 || k == 16 || k == 32 || k == 64 || k == 128) ==> ((m & k
        != 0) == (m == k))) by (bit_vector);
}

/// The set of directions in which a cell is open, packed into one byte.
#[derive(Copy, Clone, Debug, PartialEq, Eq, Structural)]
pub struct DirectionBits {
    pub bits: u8,
}

impl View for DirectionBits {
    type V = Set<Direction>;

    open spec fn view(&self) -> Set<Direction> {
        Set::new(|d: Direction| self.has(d))
    }
}

impl DirectionBits {
    /// Whether the flag of `d` is set.
    pub open spec fn has(self, d: Direction) -> bool {
        self.bits & d.mask() != 0
    }

    /// The set holds nothing but cardinal directions.
    pub open spec fn only_cardinals(self) -> bool {
        forall|d: Direction| self.has(d) ==> d.is_cardinal()
    }

    /// The set with no direction in it.
    pub fn empty() -> (r: DirectionBits)
        ensures
            r.bits == 0,
            forall|d: Direction| !r.has(d),
            r@ == Set::<Direction>::empty(),
    {
        let r = DirectionBits { bits: 0 };
        proof {
            assert forall|d: Direction| !r.has(d) by {
                let m = d.mask();
                assert(0u8 & m == 0) by (bit_vector);
            }
            assert(r@ =~= Set::<Direction>::empty());
        }
        r
    }

    /// The set of all eight directions.
    pub fn all() -> (r: DirectionBits)
        ensures
            r.bits == 255,
            forall|d: Direction| r.has(d),
            r@ == Set::<Direction>::full(),
    {
        let r = DirectionBits { bits: 255 };
        proof {
            assert forall|d: Direction| r.has(d) by {
                lemma_masks_disjoint(d, d);
                let m = d.mask();
                assert(m != 0 ==> 255u8 & m != 0) by (bit_vector);
            }
            assert(r@ =~= Set::<Direction>::full());
        }
        r
    }

    /// The set that holds `d` alone.
    pub fn single(d: Direction) -> (r: DirectionBits)
        ensures
            r.bits == d.mask(),
            forall|e: Direction| r.has(e) == (e == d),
            r@ == set![d],
    {
        let r = DirectionBits { bits: d.bit() };
        proof {
            assert forall|e: Direction| #[trigger] r.has(e) == (e == d) by {
                lemma_masks_disjoint(d, e);
            }
            assert(r@ =~= set![d]);
        }
        r
    }

    /// The byte behind the set.
    pub fn bits(self) -> (b: u8)
        ensures
            b == self.bits,
    {
        self.bits
    }

    /// Whether no direction is set.
    pub fn is_empty(self) -> (r: bool)
        ensures
            r == (self.bits == 0),
            r == (forall|d: Direction| !self.has(d)),
            r == (self@ == Set::<Direction>::empty()),
    {
        proof {
            lemma_empty_iff_zero(self);
        }
        self.bits == 0
    }

    /// Whether `d` is in the set.
    pub fn contains(self, d: Direction) -> (r: bool)
        ensures
            r == self.has(d),
            r == self@.contains(d),
    {
        self.bits & d.bit() != 0
    }

    /// Adds `d` to the set.
    pub fn insert(&mut self, d: Direction)
        ensures
            final(self).bits == old(self).bits | d.mask(),
            forall|e: Direction| final(self).has(e) == (old(self).has(e) || e == d),
            final(self)@ == old(self)@.insert(d),
    {
        let ghost before = *self;
        self.bits = self.bits | d.bit();
        proof {
            assert forall|e: Direction| #[trigger] self.has(e) == (before.has(e) || e == d) by {
                lemma_masks_disjoint(d, e);
                lemma_or_mask(before.bits, d.mask(), e.mask());
            }
            assert(self@ =~= before@.insert(d));
        }
    }

    /// Takes `d` out of the set.
    pub fn remove(&mut self, d: Direction)
        ensures
            final(self).bits == old(self).bits & !d.mask(),
            forall|e: Direction| final(self).has(e) == (old(self).has(e) && e != d),
            final(self)@ == old(self)@.remove(d),
    {
        let ghost before = *self;
        self.bits = self.bits & !d.bit();
        proof {
            assert forall|e: Direction| #[trigger] self.has(e) == (before.has(e) && e != d) by {
                lemma_masks_disjoint(d, e);
                let b = before.bits;
                let m = d.mask();
                let k = e.mask();
                assert(((b & !m) & k != 0) == ((b & k != 0) && (k & !m != 0))
                    || (m & k != 0 && k & !m != 0)) by (bit_vector);
                assert((m & k == 0 && k != 0) ==> (((b & !m) & k != 0) == (b & k != 0)))
                    by (bit_vector);
                assert((m == k) ==> ((b & !m) & k == 0)) by (bit_vector);
            }
            assert(self@ =~= before@.remove(d));
        }
    }

    /// The set of the directions that are in `self` or in `other`.
    pub fn union(self, other: DirectionBits) -> (r: DirectionBits)
        ensures
            r.bits == self.bits | other.bits,
            forall|d: Direction| r.has(d) == (self.has(d) || other.has(d)),
            r@ == self@.union(other@),
    {
        let r = DirectionBits { bits: self.bits | other.bits };
        proof {
            assert forall|d: Direction| #[trigger] r.has(d) == (self.has(d) || other.has(d)) by {
                lemma_or_mask(self.bits, other.bits, d.mask());
            }
            assert(r@ =~= self@.union(other@));
        }
        r
    }
}

/// A mask meets the union of two bytes when it meets either of them.
pub proof fn lemma_or_mask(x: u8, y: u8, m: u8)
    by (bit_vector)
    ensures
        ((x | y) & m != 0) == ((x & m != 0) || (y & m != 0)),
        (x | y) | y == x | y,
{
}

/// A set without any direction is the zero byte, and the other way round.
pub proof fn lemma_empty_iff_zero(s: DirectionBits)
    ensures
        (s.bits == 0) == (forall|d: Direction| !s.has(d)),
        (s.bits == 0) == (s@ == Set::<Direction>::empty()),
{
    let b = s.bits;
    if b == 0 {
        assert forall|d: Direction| !s.has(d) by {
            let m = d.mask();
            assert(0u8 & m == 0) by (bit_vector);
        }
        assert(s@ =~= Set::<Direction>::empty());
    } else {
        assert(b != 0 ==> (b & 1 != 0 || b & 2 != 0 || b & 4 != 0 || b & 8 != 0 || b & 16 != 0 || b
            & 32 != 0 || b & 64 != 0 || b & 128 != 0)) by (bit_vector);
        let d = if b & 1 != 0 {
            Direction::N
        } else if b & 2 != 0 {
            Direction::E
        } else if b & 4 != 0 {
            Direction::S
        } else if b & 8 != 0 {
            Direction::W
        } else if b & 16 != 0 {
            Direction::NEC
        } else if b & 32 != 0 {
            Direction::SEC
        } else if b & 64 != 0 {
            Direction::SWC
        } else {
            Direction::NWC
        };
        assert(s.has(d));
        assert(s@.contains(d));
    }
}

/// Two sets with the same members are the same byte.
pub proof fn lemma_bits_extensional(a: DirectionBits, b: DirectionBits)
    requires
        forall|d: Direction| a.has(d) == b.has(d),
    ensures
        a == b,
{
    let x = a.bits;
    let y = b.bits;
    assert(a.has(Direction::N) == b.has(Direction::N));
    assert(a.has(Direction::E) == b.has(Direction::E));
    assert(a.has(Direction::S) == b.has(Direction::S));
    assert(a.has(Direction::W) == b.has(Direction::W));
    assert(a.has(Direction::NEC) == b.has(Direction::NEC));
    assert(a.has(Direction::SEC) == b.has(Direction::SEC));
    assert(a.has(Direction::SWC) == b.has(Direction::SWC));
    assert(a.has(Direction::NWC) == b.has(Direction::NWC));
    assert(((x & 1 != 0) == (y & 1 != 0) && (x & 2 != 0) == (y & 2 != 0) && (x & 4 != 0) == (y & 4
        != 0) && (x & 8 != 0) == (y & 8 != 0) && (x & 16 != 0) == (y & 16 != 0) && (x & 32 != 0)
        == (y & 32 != 0) && (x & 64 != 0) == (y & 64 != 0) && (x & 128 != 0) == (y & 128 != 0))
        ==> x == y) by (bit_vector);
}

} // verus!
