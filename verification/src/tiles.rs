//! The tile image that shows a cell, chosen by the cell's open directions.

use crate::direction::{lemma_bits_extensional, Direction, DirectionBits};
use vstd::prelude::*;

verus! {

/// The tile of a cell that is open towards the cardinals `n`, `e`, `s`, `w`
/// and has none of its corners marked.
pub open spec fn plain_tile(n: bool, e: bool, s: bool, w: bool) -> u16 {
    match (n, e, s, w) {
        (false, false, false, false) => 342,
        (true, false, false, false) => 286,
        (false, true, false, false) => 313,
        (false, false, true, false) => 312,
        (false, false, false, true) => 285,
        (true, true, false, false) => 307,
        (true, false, false, true) => 308,
        (true, false, true, false) => 309,
        (false, true, true, false) => 280,
        (false, false, true, true) => 281,
        (false, true, false, true) => 282,
        (false, true, true, true) => 283,
        (true, true, false, true) => 284,
        (true, true, true, false) => 310,
        (true, false, true, true) => 311,
        (true, true, true, true) => 341,
    }
}

/// The tile number of a cell, by its cardinals `n`, `e`, `s`, `w` and its
/// corners `ne`, `se`, `sw`, `nw`; `None` for a pattern without a tile.
pub open spec fn tile_of(
    n: bool,
    e: bool,
    s: bool,
    w: bool,
    ne: bool,
    se: bool,
    sw: bool,
    nw: bool,
) -> Option<u16> {
    match (ne, se, sw, nw) {
        (false, false, false, false) => Some(plain_tile(n, e, s, w)),
        // one marked corner
        (true, false, false, false) => match (n, e, s, w) {
            (true, true, false, false) => Some(314u16),
            (true, true, false, true) => Some(419u16),
            (true, true, true, false) => Some(417u16),
            _ => None,
        },
        (false, false, false, true) => match (n, e, s, w) {
            (true, false, false, true) => Some(315u16),
            (true, true, false, true) => Some(420u16),
            (true, false, true, true) => Some(418u16),
            _ => None,
        },
        (false, true, false, false) => match (n, e, s, w) {
            (false, true, true, false) => Some(287u16),
            (false, true, true, true) => Some(392u16),
            (true, true, true, false) => Some(390u16),
            _ => None,
        },
        (false, false, true, false) => match (n, e, s, w) {
            (false, false, true, true) => Some(288u16),
            (false, true, true, true) => Some(393u16),
            (true, false, true, true) => Some(391u16),
            _ => None,
        },
        // two marked corners on one side
        (true, false, false, true) => match (n, e, s, w) {
            (true, true, false, true) => Some(366u16),
            (true, true, true, true) => Some(336u16),
            _ => None,
        },
        (false, true, true, false) => match (n, e, s, w) {
            (false, true, true, true) => Some(365u16),
            (true, true, true, true) => Some(337u16),
            _ => None,
        },
        (true, true, false, false) => match (n, e, s, w) {
            (true, true, true, false) => Some(338u16),
            (true, true, true, true) => Some(364u16),
            _ => None,
        },
        (false, false, true, true) => match (n, e, s, w) {
            (true, false, true, true) => Some(339u16),
            (true, true, true, true) => Some(363u16),
            _ => None,
        },
        // three or four marked corners: only the crossing has them
        (true, false, true, true) => if n && e && s && w {
            Some(334u16)
        } else {
            None
        },
        (true, true, false, true) => if n && e && s && w {
            Some(335u16)
        } else {
            None
        },
        (true, true, true, false) => if n && e && s && w {
            Some(362u16)
        } else {
            None
        },
        (false, true, true, true) => if n && e && s && w {
            Some(361u16)
        } else {
            None
        },
        (true, true, true, true) => if n && e && s && w {
            Some(340u16)
        } else {
            None
        },
        // two corners that face each other have no tile
        (true, false, true, false) => None,
        (false, true, false, true) => None,
    }
}

/// The tile number that shows `cell`, if the pattern has one.
pub open spec fn tile_spec(cell: DirectionBits) -> Option<u16> {
    tile_of(
        cell.has(Direction::N),
        cell.has(Direction::E),
        cell.has(Direction::S),
        cell.has(Direction::W),
        cell.has(Direction::NEC),
        cell.has(Direction::SEC),
        cell.has(Direction::SWC),
        cell.has(Direction::NWC),
    )
}

/// A byte is the sum of the masks that it meets.
pub proof fn lemma_byte_is_sum_of_masks(b: u8)
    by (bit_vector)
    ensures
        b == (if b & 1 != 0 { 1u8 } else { 0u8 }) + (if b & 2 != 0 { 2u8 } else { 0u8 }) + (if b & 4
            != 0 { 4u8 } else { 0u8 }) + (if b & 8 != 0 { 8u8 } else { 0u8 }) + (if b & 16 != 0 {
            16u8
        } else {
            0u8
        }) + (if b & 32 != 0 { 32u8 } else { 0u8 }) + (if b & 64 != 0 { 64u8 } else { 0u8 }) + (
        if b & 128 != 0 { 128u8 } else { 0u8 }),
{
}

/// Looks up the number of the tile image for `cell`. The lookup is a single
/// table from bit pattern to tile; a pattern that no tile was drawn for
/// gives `None`.
pub fn tile_index(cell: DirectionBits) -> (tile: Option<u16>)
    ensures
        tile == tile_spec(cell),
{
    proof {
        lemma_byte_is_sum_of_masks(cell.bits);
    }
    match cell.bits() {
        0 => Some(342),
        1 => Some(286),
        2 => Some(313),
        4 => Some(312),
        8 => Some(285),
        3 => Some(307),
        9 => Some(308),
        5 => Some(309),
        6 => Some(280),
        12 => Some(281),
        10 => Some(282),
        14 => Some(283),
        11 => Some(284),
        7 => Some(310),
        13 => Some(311),
        15 => Some(341),
        19 => Some(314),
        137 => Some(315),
        38 => Some(287),
        76 => Some(288),
        27 => Some(419),
        139 => Some(420),
        46 => Some(392),
        78 => Some(393),
        23 => Some(417),
        39 => Some(390),
        141 => Some(418),
        77 => Some(391),
        155 => Some(366),
        110 => Some(365),
        55 => Some(338),
        205 => Some(339),
        159 => Some(336),
        111 => Some(337),
        207 => Some(363),
        63 => Some(364),
        223 => Some(334),
        191 => Some(335),
        127 => Some(362),
        239 => Some(361),
        255 => Some(340),
        _ => None,
    }
}

/// Every cell without a marked corner has a tile.
pub proof fn lemma_cardinal_cells_have_tiles(cell: DirectionBits)
    requires
        cell.only_cardinals(),
    ensures
        tile_spec(cell) is Some,
{
    assert(!Direction::NEC.is_cardinal() && !Direction::SEC.is_cardinal()
        && !Direction::SWC.is_cardinal() && !Direction::NWC.is_cardinal());
}

/// The byte of a cell with every corner mark dropped that does not stand
/// between two open cardinals.
pub open spec fn canonical_bits(b: u8) -> u8 {
    let north_east: u8 = if b & 3 == 3 {
        16
    } else {
        0
    };
    let south_east: u8 = if b & 6 == 6 {
        32
    } else {
        0
    };
    let south_west: u8 = if b & 12 == 12 {
        64
    } else {
        0
    };
    let north_west: u8 = if b & 9 == 9 {
        128
    } else {
        0
    };
    b & (15 | north_east | south_east | south_west | north_west)
}

/// The number of classes that cells fall into for their looks.
pub const CLASS_COUNT: usize = 47;

/// The classes of cells, each given by the byte of its pattern.
pub open spec fn classes() -> Seq<u8> {
    seq![
        0, 1, 2, 3, 4, 5, 6, 7, 8, 9, 10, 11,
        12, 13, 14, 15, 19, 23, 27, 31, 38, 39, 46, 47,
        55, 63, 76, 77, 78, 79, 95, 110, 111, 127, 137, 139,
        141, 143, 155, 159, 175, 191, 205, 207, 223, 239, 255,
    ]
}

/// Every pattern falls into one of the classes, and a pattern that is a
/// class falls into itself.
pub proof fn lemma_classes(b: u8)
    ensures
        classes().contains(canonical_bits(b)),
        canonical_bits(canonical_bits(b)) == canonical_bits(b),
{
    let c = canonical_bits(b);
    assert(c == canonical_bits(b) ==> (c == 0 || c == 1 || c == 2 || c == 3 || c == 4 || c == 5 || c == 6 || c == 7 || c == 8 || c == 9 || c == 10 || c == 11 || c == 12 || c == 13 || c == 14 || c == 15 || c == 19 || c == 23 || c == 27 || c == 31 || c == 38 || c == 39 || c == 46 || c == 47 || c == 55 || c == 63 || c == 76 || c == 77 || c == 78 || c == 79 || c == 95 || c == 110 || c == 111 || c == 127 || c == 137 || c == 139 || c == 141 || c == 143 || c == 155 || c == 159 || c == 175 || c == 191 || c == 205 || c == 207 || c == 223 || c == 239 || c == 255)) by (bit_vector);
    assert(c == canonical_bits(b) ==> canonical_bits(c) == c) by (bit_vector);
    let list = classes();
    if c == 0 {
        assert(list[0] == c);
    }
    if c == 1 {
        assert(list[1] == c);
    }
    if c == 2 {
        assert(list[2] == c);
    }
    if c == 3 {
        assert(list[3] == c);
    }
    if c == 4 {
        assert(list[4] == c);
    }
    if c == 5 {
        assert(list[5] == c);
    }
    if c == 6 {
        assert(list[6] == c);
    }
    if c == 7 {
        assert(list[7] == c);
    }
    if c == 8 {
        assert(list[8] == c);
    }
    if c == 9 {
        assert(list[9] == c);
    }
    if c == 10 {
        assert(list[10] == c);
    }
    if c == 11 {
        assert(list[11] == c);
    }
    if c == 12 {
        assert(list[12] == c);
    }
    if c == 13 {
        assert(list[13] == c);
    }
    if c == 14 {
        assert(list[14] == c);
    }
    if c == 15 {
        assert(list[15] == c);
    }
    if c == 19 {
        assert(list[16] == c);
    }
    if c == 23 {
        assert(list[17] == c);
    }
    if c == 27 {
        assert(list[18] == c);
    }
    if c == 31 {
        assert(list[19] == c);
    }
    if c == 38 {
        assert(list[20] == c);
    }
    if c == 39 {
        assert(list[21] == c);
    }
    if c == 46 {
        assert(list[22] == c);
    }
    if c == 47 {
        assert(list[23] == c);
    }
    if c == 55 {
        assert(list[24] == c);
    }
    if c == 63 {
        assert(list[25] == c);
    }
    if c == 76 {
        assert(list[26] == c);
    }
    if c == 77 {
        assert(list[27] == c);
    }
    if c == 78 {
        assert(list[28] == c);
    }
    if c == 79 {
        assert(list[29] == c);
    }
    if c == 95 {
        assert(list[30] == c);
    }
    if c == 110 {
        assert(list[31] == c);
    }
    if c == 111 {
        assert(list[32] == c);
    }
    if c == 127 {
        assert(list[33] == c);
    }
    if c == 137 {
        assert(list[34] == c);
    }
    if c == 139 {
        assert(list[35] == c);
    }
    if c == 141 {
        assert(list[36] == c);
    }
    if c == 143 {
        assert(list[37] == c);
    }
    if c == 155 {
        assert(list[38] == c);
    }
    if c == 159 {
        assert(list[39] == c);
    }
    if c == 175 {
        assert(list[40] == c);
    }
    if c == 191 {
        assert(list[41] == c);
    }
    if c == 205 {
        assert(list[42] == c);
    }
    if c == 207 {
        assert(list[43] == c);
    }
    if c == 223 {
        assert(list[44] == c);
    }
    if c == 239 {
        assert(list[45] == c);
    }
    if c == 255 {
        assert(list[46] == c);
    }
}

/// What a direction needs to stay in the class of a cell: a cardinal
/// nothing, a corner the two cardinals that it stands between.
pub open spec fn keeps(cell: DirectionBits, d: Direction) -> bool {
    match d {
        Direction::NEC => cell.has(Direction::N) && cell.has(Direction::E),
        Direction::SEC => cell.has(Direction::S) && cell.has(Direction::E),
        Direction::SWC => cell.has(Direction::S) && cell.has(Direction::W),
        Direction::NWC => cell.has(Direction::N) && cell.has(Direction::W),
        _ => true,
    }
}

/// The class of a cell holds the directions of the cell that can stay.
pub proof fn lemma_canonical_has(cell: DirectionBits, d: Direction)
    ensures
        (DirectionBits { bits: canonical_bits(cell.bits) }).has(d) == (cell.has(d) && keeps(cell, d)),
{
    let b = cell.bits;
    let c = canonical_bits(b);
    assert(c == canonical_bits(b) ==> ((c & 1 != 0) == (b & 1 != 0)) && ((c & 2 != 0) == (b & 2
        != 0)) && ((c & 4 != 0) == (b & 4 != 0)) && ((c & 8 != 0) == (b & 8 != 0)) && ((c & 16
        != 0) == (b & 16 != 0 && b & 1 != 0 && b & 2 != 0)) && ((c & 32 != 0) == (b & 32 != 0 && b
        & 4 != 0 && b & 2 != 0)) && ((c & 64 != 0) == (b & 64 != 0 && b & 4 != 0 && b & 8 != 0))
        && ((c & 128 != 0) == (b & 128 != 0 && b & 1 != 0 && b & 8 != 0))) by (bit_vector);
}

/// A cell whose corner marks all stand between two open cardinals is its
/// own class.
pub proof fn lemma_canonical_fixed(cell: DirectionBits)
    requires
        forall|d: Direction| cell.has(d) ==> keeps(cell, d),
    ensures
        canonical_bits(cell.bits) == cell.bits,
{
    let class = DirectionBits { bits: canonical_bits(cell.bits) };
    assert forall|d: Direction| class.has(d) == cell.has(d) by {
        lemma_canonical_has(cell, d);
    }
    lemma_bits_extensional(class, cell);
}

/// Only classes have tiles.
pub proof fn lemma_tiles_are_for_classes(cell: DirectionBits)
    requires
        tile_spec(cell) is Some,
    ensures
        canonical_bits(cell.bits) == cell.bits,
{
    assert forall|d: Direction| cell.has(d) implies keeps(cell, d) by {}
    lemma_canonical_fixed(cell);
}

/// The class of a cell: the cell without the corner marks that do not
/// stand between two open cardinals.
pub fn canonical(cell: DirectionBits) -> (class: DirectionBits)
    ensures
        class.bits == canonical_bits(cell.bits),
        forall|d: Direction| #[trigger] class.has(d) == (cell.has(d) && keeps(cell, d)),
{
    let b = cell.bits();
    let north_east: u8 = if b & 3 == 3 {
        16
    } else {
        0
    };
    let south_east: u8 = if b & 6 == 6 {
        32
    } else {
        0
    };
    let south_west: u8 = if b & 12 == 12 {
        64
    } else {
        0
    };
    let north_west: u8 = if b & 9 == 9 {
        128
    } else {
        0
    };
    let class = DirectionBits { bits: b & (15 | north_east | south_east | south_west | north_west) };
    proof {
        assert forall|d: Direction| #[trigger] class.has(d) == (cell.has(d) && keeps(cell, d)) by {
            lemma_canonical_has(cell, d);
        }
    }
    class
}

/// The number of the class of a cell among the classes: every pattern of
/// openings and marks belongs to exactly one of them.
pub fn class_index(cell: DirectionBits) -> (index: usize)
    ensures
        index < CLASS_COUNT,
        classes()[index as int] == canonical_bits(cell.bits),
{
    let list: [u8; 47] = [
        0, 1, 2, 3, 4, 5, 6, 7, 8, 9, 10, 11,
        12, 13, 14, 15, 19, 23, 27, 31, 38, 39, 46, 47,
        55, 63, 76, 77, 78, 79, 95, 110, 111, 127, 137, 139,
        141, 143, 155, 159, 175, 191, 205, 207, 223, 239, 255,
    ];
    assert(list@ =~= classes());
    let wanted = canonical(cell).bits();
    proof {
        lemma_classes(cell.bits);
    }
    let mut index: usize = 0;
    while index < 46
        invariant
            index <= 46,
            list@ == classes(),
            wanted == canonical_bits(cell.bits),
            exists|k: int| index <= k < 47 && #[trigger] classes()[k] == wanted,
        decreases 46 - index,
    {
        if list[index] == wanted {
            return index;
        }
        proof {
            let k = choose|k: int| index <= k < 47 && #[trigger] classes()[k] == wanted;
            assert(index + 1 <= k < 47 && classes()[k] == wanted);
        }
        index = index + 1;
    }
    index
}

} // verus!
