//! The bad end: once the player has seen all of the arena, the picture of
//! the boss fades in cell by cell, in an order that looks like chance.

use crate::grid::Grid;
use vstd::prelude::*;

verus! {

/// What one round mixes into the other half: a nibble made from the
/// nibble `r`.
pub open spec fn round_mix(r: u8) -> u8 {
    let product = ((r * 5) % 256) as u8;
    let sum = ((product + (r >> 3)) % 256) as u8;
    let shifted = ((sum + 189) % 256) as u8;
    (shifted ^ r) & 0xf
}

/// One round: the halves change places, and the left half takes the mix
/// of the right one.
pub open spec fn round(l: u8, r: u8) -> (u8, u8) {
    (r, l ^ round_mix(r))
}

/// The halves after `n` rounds.
pub open spec fn rounds(l: u8, r: u8, n: nat) -> (u8, u8)
    decreases n,
{
    if n == 0 {
        (l, r)
    } else {
        let before = rounds(l, r, (n - 1) as nat);
        round(before.0, before.1)
    }
}

/// The byte that eight rounds make of `input`, whose low nibble is the
/// left half and whose high nibble is the right one.
pub open spec fn feistel_spec(input: u8) -> u8 {
    let halves = rounds(input & 0xf, input >> 4, 8);
    ((halves.1 << 4) | halves.0) & 0xff
}

/// Both halves stay nibbles.
pub proof fn lemma_rounds_are_nibbles(l: u8, r: u8, n: nat)
    requires
        l < 16,
        r < 16,
    ensures
        rounds(l, r, n).0 < 16,
        rounds(l, r, n).1 < 16,
    decreases n,
{
    if n > 0 {
        lemma_rounds_are_nibbles(l, r, (n - 1) as nat);
        let before = rounds(l, r, (n - 1) as nat);
        let a = before.0;
        let m = round_mix(before.1);
        assert(m < 16) by {
            let x = (((((((before.1 * 5) % 256) as u8) + (before.1 >> 3)) % 256) as u8 + 189)
                % 256) as u8;
            let y = before.1;
            assert((x ^ y) & 0xf < 16) by (bit_vector);
        }
        assert(a < 16 && m < 16 ==> a ^ m < 16) by (bit_vector);
    }
}

/// Different halves stay different through the rounds.
pub proof fn lemma_rounds_injective(l1: u8, r1: u8, l2: u8, r2: u8, n: nat)
    requires
        rounds(l1, r1, n) == rounds(l2, r2, n),
    ensures
        l1 == l2,
        r1 == r2,
    decreases n,
{
    if n > 0 {
        let a = rounds(l1, r1, (n - 1) as nat);
        let b = rounds(l2, r2, (n - 1) as nat);
        assert(a.1 == b.1);
        let m = round_mix(a.1);
        let x = a.0;
        let y = b.0;
        assert(x ^ m == y ^ m ==> x == y) by (bit_vector);
        lemma_rounds_injective(l1, r1, l2, r2, (n - 1) as nat);
    }
}

/// No two bytes are scrambled into the same byte.
pub proof fn lemma_feistel_injective(a: u8, b: u8)
    requires
        feistel_spec(a) == feistel_spec(b),
    ensures
        a == b,
{
    let ha = rounds(a & 0xf, a >> 4, 8);
    let hb = rounds(b & 0xf, b >> 4, 8);
    assert(a & 0xf < 16 && a >> 4 < 16 && b & 0xf < 16 && b >> 4 < 16) by (bit_vector);
    lemma_rounds_are_nibbles(a & 0xf, a >> 4, 8);
    lemma_rounds_are_nibbles(b & 0xf, b >> 4, 8);
    let (l1, r1) = ha;
    let (l2, r2) = hb;
    assert(l1 < 16 && r1 < 16 && l2 < 16 && r2 < 16 && ((r1 << 4) | l1) & 0xff == ((r2 << 4) | l2)
        & 0xff ==> l1 == l2 && r1 == r2) by (bit_vector);
    lemma_rounds_injective(a & 0xf, a >> 4, b & 0xf, b >> 4, 8);
    assert(a & 0xf == b & 0xf && a >> 4 == b >> 4 ==> a == b) by (bit_vector);
}

/// Scrambles a byte: eight rounds that swap the halves of the byte and mix
/// one into the other. Every byte is the scrambled form of exactly one
/// byte, so that counting up and scrambling comes upon every byte once.
pub fn feistel(input: u8) -> (output: u8)
    ensures
        output == feistel_spec(input),
{
    let mut l: u8 = input & 0xf;
    let mut r: u8 = input >> 4;
    assert(input & 0xf < 16 && input >> 4 < 16) by (bit_vector);
    let mut i: usize = 0;
    while i < 8
        invariant
            i <= 8,
            l < 16,
            r < 16,
            input & 0xf < 16,
            input >> 4 < 16,
            (l, r) == rounds(input & 0xf, input >> 4, i as nat),
        decreases 8 - i,
    {
        let nl = r;
        let product: u8 = r * 5;
        let sum: u8 = product.wrapping_add(r >> 3);
        let shifted: u8 = sum.wrapping_add(3 * 63);
        let f: u8 = (shifted ^ r) & 0xf;
        proof {
            assert(product == (r * 5) % 256);
            assert(sum == (product + (r >> 3)) % 256);
            assert(shifted == (sum + 189) % 256);
            assert(f == round_mix(r));
            assert(f < 16) by (bit_vector)
                requires
                    f == (shifted ^ r) & 0xf,
            ;
            assert(l ^ f < 16) by (bit_vector)
                requires
                    l < 16,
                    f < 16,
            ;
        }
        r = l ^ f;
        l = nl;
        i = i + 1;
    }
    ((r << 4) | l) & 0xff
}

/// Where the bad end stands: the player still looks about, the picture of
/// the boss fades in and has come to the noted frame, or the boss speaks.
#[derive(Copy, Clone, Debug, PartialEq, Eq, Structural)]
pub enum EndState {
    Start,
    FadeToSequence(u8),
    Speech,
}

/// The number of cells of the picture of the boss.
pub const PICTURE_CELLS: usize = 256;

impl EndState {
    /// The state after one more frame.
    pub open spec fn next_spec(self, all_seen: bool) -> EndState {
        match self {
            EndState::Start => if all_seen {
                EndState::FadeToSequence(0)
            } else {
                EndState::Start
            },
            EndState::FadeToSequence(frame) => if frame == 255 {
                EndState::Speech
            } else {
                EndState::FadeToSequence((frame + 1) as u8)
            },
            EndState::Speech => EndState::Speech,
        }
    }

    /// One frame on. While the player looks about, the fade begins as soon
    /// as all of the arena has been seen. Every frame of the fade shows one
    /// more cell of the picture, the one that the scrambled number of the
    /// frame stands for; after the last frame the boss speaks.
    pub fn advance(self, all_seen: bool, boss_show: &mut Grid<bool>) -> (next: EndState)
        requires
            self is FadeToSequence ==> old(boss_show).data.len() == PICTURE_CELLS,
        ensures
            next == self.next_spec(all_seen),
            final(boss_show).width == old(boss_show).width,
            final(boss_show).height == old(boss_show).height,
            final(boss_show).data@ == match self {
                EndState::FadeToSequence(frame) => old(boss_show).data@.update(
                    feistel_spec(frame) as int,
                    true,
                ),
                _ => old(boss_show).data@,
            },
    {
        match self {
            EndState::Start => {
                if all_seen {
                    EndState::FadeToSequence(0)
                } else {
                    EndState::Start
                }
            },
            EndState::FadeToSequence(frame) => {
                let index = feistel(frame);
                boss_show.data.set(index as usize, true);
                if frame == 255 {
                    EndState::Speech
                } else {
                    EndState::FadeToSequence(frame + 1)
                }
            },
            EndState::Speech => EndState::Speech,
        }
    }
}

} // verus!
