//! Spawn sampling: the cells of a map in a random order, each once, without
//! a list of them ever being shuffled or stored.
//!
//! The sampler steps a cursor round the least prime that is not below the
//! number of cells. The step is drawn at random; as the prime does not
//! divide it, the cursor comes upon every remainder once before it
//! returns to where it began. Remainders that stand for no cell are
//! passed over.

use crate::bag::{
    cursor, emitted, lemma_cursor_next, lemma_cursor_round, lemma_emitted, lemma_emitted_all,
    sampler_ok,
};
use crate::grid::{coord_at, d1_to_d2, Coord};
use crate::primes::{is_next_prime, next_prime};
use crate::random::gen_below;
use rand::rngs::SmallRng;
use vstd::arithmetic::div_mod::{lemma_add_mod_noop, lemma_mod_bound, lemma_mul_mod_noop_general};
use vstd::prelude::*;
use vstd::set_lib::{lemma_int_range, lemma_subset_equality, set_int_range};

verus! {

/// The step length that the three draws `a`, `b` and `c` stand for, with
/// `count` values to sample.
pub open spec fn skip_spec(count: int, a: int, b: int, c: int) -> int {
    a * (count * count) + b * count + c
}

/// `skip` is the step length of three draws, each from one to `prime`, taken
/// round the modulus `prime`.
pub open spec fn is_drawn_step(count: int, prime: int, skip: int) -> bool {
    exists|a: int, b: int, c: int|
        1 <= a <= prime && 1 <= b <= prime && 1 <= c <= prime && skip == #[trigger] skip_spec(
            count,
            a,
            b,
            c,
        ) % prime
}

/// The step length of the draws `a`, `b`, `c`, taken round the modulus
/// `prime`. It is worked out on remainders, so that no product leaves the
/// range of the machine's numbers.
pub fn skip_for(count: usize, prime: usize, a: usize, b: usize, c: usize) -> (skip: usize)
    requires
        prime > 0,
    ensures
        skip == skip_spec(count as int, a as int, b as int, c as int) % (prime as int),
        skip < prime,
{
    let p = prime as u128;
    let n = (count as u128) % p;
    let ra = (a as u128) % p;
    let rb = (b as u128) % p;
    assert(n * n <= u128::MAX) by (nonlinear_arith)
        requires
            n < 0x1_0000_0000_0000_0000,
    ;
    let square = (n * n) % p;
    assert(ra * square <= u128::MAX && rb * n <= u128::MAX) by (nonlinear_arith)
        requires
            n < 0x1_0000_0000_0000_0000,
            ra < 0x1_0000_0000_0000_0000,
            rb < 0x1_0000_0000_0000_0000,
            square < 0x1_0000_0000_0000_0000,
    ;
    let first = (ra * square) % p;
    let second = (rb * n) % p;
    let third = (c as u128) % p;
    let sum = (first + second) % p;
    let skip = (sum + third) % p;
    proof {
        let m = prime as int;
        let k = count as int;
        lemma_mul_mod_noop_general(k, k, m);
        assert(square == (k * k) % m);
        lemma_mul_mod_noop_general(a as int, k * k, m);
        assert(first == (a * (k * k)) % m);
        lemma_mul_mod_noop_general(b as int, k, m);
        assert(second == (b * k) % m);
        lemma_add_mod_noop(a * (k * k), b * k, m);
        assert(sum == (a * (k * k) + b * k) % m);
        lemma_add_mod_noop(a * (k * k) + b * k, c as int, m);
        lemma_mod_bound(skip_spec(k, a as int, b as int, c as int), m);
    }
    skip as usize
}

/// A sampler of the values below `count`. `steps` counts, for the proofs
/// only, how often the cursor has been moved.
pub struct BagRandom {
    pub count: usize,
    pub prime: usize,
    pub skip: usize,
    pub next: usize,
    pub returned: usize,
    pub steps: Ghost<int>,
}

impl BagRandom {
    /// The sampler is in order: its modulus is a prime that the step
    /// length is no multiple of, the cursor stands where its steps have
    /// brought it, and the values it has handed out are counted.
    pub open spec fn wf(&self) -> bool {
        &&& sampler_ok(self.count as int, self.prime as int, self.skip as int)
        &&& 0 <= self.steps@ <= self.prime
        &&& self.next == cursor(self.prime as int, self.skip as int, self.steps@)
        &&& self.returned == self.history().len()
    }

    /// The values handed out so far, in their order.
    pub open spec fn history(&self) -> Seq<usize> {
        emitted(self.count as int, self.prime as int, self.skip as int, self.steps@)
    }

    /// A sampler that has not handed out anything yet, with the step
    /// length of the draws `a`, `b` and `c`; `None` when the modulus
    /// divides that step length, so that other draws are needed.
    pub fn with_draws(count: usize, prime: usize, a: usize, b: usize, c: usize) -> (bag: Option<
        BagRandom,
    >)
        requires
            is_next_prime(count as int, prime as int),
        ensures
            bag is Some <==> skip_spec(count as int, a as int, b as int, c as int) % (prime as int)
                != 0,
            bag matches Some(fresh) ==> fresh.wf() && fresh.count == count && fresh.prime == prime
                && fresh.skip == skip_spec(count as int, a as int, b as int, c as int) % (
            prime as int) && fresh.next == 0 && fresh.returned == 0 && fresh.history()
                == Seq::<usize>::empty(),
    {
        let skip = skip_for(count, prime, a, b, c);
        if skip == 0 {
            None
        } else {
            proof {
                lemma_cursor_round(prime as int, skip as int);
            }
            Some(BagRandom { count, prime, skip, next: 0, returned: 0, steps: Ghost(0) })
        }
    }

    /// The next value: one below `count` that was not handed out before.
    /// After `count` values there is none left.
    pub fn next(&mut self) -> (value: Option<usize>)
        requires
            old(self).wf(),
        ensures
            final(self).wf(),
            final(self).count == old(self).count,
            final(self).prime == old(self).prime,
            final(self).skip == old(self).skip,
            old(self).returned >= old(self).count ==> value is None && *final(self) == *old(self),
            old(self).returned < old(self).count ==> value is Some && value.unwrap() < old(self).count && !old(self).history().contains(value.unwrap()) && final(self).history()
                == old(self).history().push(value.unwrap()),
    {
        if self.returned >= self.count {
            return None;
        }
        let ghost count = self.count as int;
        let ghost prime = self.prime as int;
        let ghost skip = self.skip as int;
        let ghost before = self.history();
        loop
            invariant
                self.wf(),
                self.count == count,
                self.prime == prime,
                self.skip == skip,
                self.count == old(self).count,
                self.prime == old(self).prime,
                self.skip == old(self).skip,
                self.history() == before,
                self.returned == old(self).returned,
                before == old(self).history(),
                self.returned < self.count,
            decreases self.prime - self.steps@,
        {
            proof {
                if self.steps@ == prime {
                    lemma_emitted_all(count, prime, skip);
                }
                lemma_cursor_next(prime, skip, self.steps@);
                lemma_emitted(count, prime, skip, self.steps@ + 1);
            }
            if self.next >= self.prime - self.skip {
                self.next = self.next - (self.prime - self.skip);
            } else {
                self.next = self.next + self.skip;
            }
            proof {
                self.steps@ = self.steps@ + 1;
            }
            if self.next < self.count {
                self.returned = self.returned + 1;
                proof {
                    assert(self.history() == before.push(self.next));
                    assert(self.history().no_duplicates());
                    if before.contains(self.next) {
                        let i = choose|i: int| 0 <= i < before.len() && before[i] == self.next;
                        assert(self.history()[i] == self.history()[before.len() as int]);
                    }
                }
                return Some(self.next);
            }
        }
    }
}

/// A sampler that has handed out all its values has handed out every
/// value below its count, and each of them once.
pub proof fn lemma_bag_is_permutation(bag: BagRandom)
    requires
        bag.wf(),
        bag.returned == bag.count,
    ensures
        bag.history().len() == bag.count,
        bag.history().no_duplicates(),
        forall|i: int| 0 <= i < bag.history().len() ==> (#[trigger] bag.history()[i]) < bag.count,
        forall|v: usize| v < bag.count ==> #[trigger] bag.history().contains(v),
{
    let all = bag.history();
    let count = bag.count as int;
    lemma_emitted(count, bag.prime as int, bag.skip as int, bag.steps@);
    let values = all.map_values(|v: usize| v as int);
    assert forall|a: int, b: int| 0 <= a < values.len() && 0 <= b < values.len() && a
        != b implies values[a] != values[b] by {
        assert(all[a] != all[b]);
    }
    values.unique_seq_to_set();
    lemma_int_range(0, count);
    assert(values.to_set().subset_of(set_int_range(0, count))) by {
        assert forall|x: int| values.to_set().contains(x) implies set_int_range(0, count).contains(
            x,
        ) by {
            let i = choose|i: int| 0 <= i < values.len() && values[i] == x;
            assert(all[i] < count);
        }
    }
    vstd::set_lib::lemma_len_subset(values.to_set(), set_int_range(0, count));
    lemma_subset_equality(values.to_set(), set_int_range(0, count));
    assert forall|v: usize| v < bag.count implies #[trigger] all.contains(v) by {
        assert(set_int_range(0, count).contains(v as int));
        assert(values.to_set().contains(v as int));
        assert(values.contains(v as int));
        let i = choose|i: int| 0 <= i < values.len() && values[i] == v as int;
        assert(all[i] == v);
    }
}

/// Draws step lengths until one is found that the modulus does not divide.
/// The three draws are taken from one to `prime`, both included. The
/// sampler that comes back steps by the first such step length, from a
/// cursor at zero, and has not handed out anything yet. Whether a draw
/// gives such a step length lies with the random source; what each draw
/// gives is said by `BagRandom::with_draws`.
pub fn roll_sampler(count: usize, prime: usize, rng: &mut SmallRng) -> (bag: Option<BagRandom>)
    requires
        is_next_prime(count as int, prime as int),
    ensures
        bag matches Some(fresh) ==> fresh.wf() && fresh.count == count && fresh.prime == prime
            && is_drawn_step(count as int, prime as int, fresh.skip as int) && fresh.next == 0
            && fresh.returned == 0 && fresh.history() == Seq::<usize>::empty(),
{
    let mut tries: usize = 0;
    loop
        invariant
            is_next_prime(count as int, prime as int),
        decreases usize::MAX - tries,
    {
        let a = gen_below(rng, prime) + 1;
        let b = gen_below(rng, prime) + 1;
        let c = gen_below(rng, prime) + 1;
        match BagRandom::with_draws(count, prime, a, b, c) {
            Some(fresh) => {
                assert(is_drawn_step(count as int, prime as int, fresh.skip as int)) by {
                    assert(fresh.skip == skip_spec(count as int, a as int, b as int, c as int) % (
                    prime as int));
                }
                return Some(fresh);
            },
            None => {},
        }
        if tries == usize::MAX {
            return None;
        }
        tries = tries + 1;
    }
}

/// A sampler of the values below `count` in an order that the random
/// source decides: it steps round the least prime that is not below
/// `count`, by a step length of three draws from one to that prime, from a
/// cursor at zero. There is none when the machine cannot hold a prime that
/// is not below `count`.
pub fn bag_random(count: usize, rng: &mut SmallRng) -> (bag: Option<BagRandom>)
    ensures
        bag matches Some(fresh) ==> fresh.wf() && fresh.count == count && is_next_prime(
            count as int,
            fresh.prime as int,
        ) && is_drawn_step(count as int, fresh.prime as int, fresh.skip as int) && fresh.next == 0
            && fresh.returned == 0 && fresh.history() == Seq::<usize>::empty(),
        (forall|q: int| count <= q <= usize::MAX ==> !#[trigger] crate::primes::is_prime_spec(q))
            ==> bag is None,
{
    match next_prime(count) {
        Some(prime) => roll_sampler(count, prime, rng),
        None => None,
    }
}

/// Whether `coord` lies in the region `exclusion`, given as its least
/// column, its least row, and the column and the row that end it.
pub open spec fn excluded(exclusion: Seq<usize>, coord: Coord) -> bool {
    exclusion[0] <= coord.0 < exclusion[2] && exclusion[1] <= coord.1 < exclusion[3]
}

/// Whether `coord` lies in the region `exclusion`.
pub fn is_excluded(exclusion: &[usize; 4], coord: Coord) -> (inside: bool)
    ensures
        inside == excluded(exclusion@, coord),
{
    exclusion[0] <= coord.0 && coord.0 < exclusion[2] && exclusion[1] <= coord.1 && coord.1
        < exclusion[3]
}

/// Spawn cells: the cells of a map in the order of a sampler, without
/// those of a region around the player, and no more than `max` of them.
pub struct SpawnIterator {
    pub max: usize,
    pub taken: usize,
    pub bag: BagRandom,
    pub width: usize,
    pub exclusion: [usize; 4],
}

impl SpawnIterator {
    /// The sampler is in order, and values can be turned into cells.
    pub open spec fn wf(&self) -> bool {
        self.bag.wf() && (self.bag.count > 0 ==> self.width > 0)
    }

    /// The values that the sampler has handed out since it had handed out
    /// `since` of them.
    pub open spec fn drawn_since(&self, since: int) -> Seq<usize> {
        self.bag.history().subrange(since, self.bag.history().len() as int)
    }

    /// At most `max` spawn cells out of `bag`, on a map that is `width`
    /// cells wide, outside `exclusion`.
    pub fn new(max: usize, bag: BagRandom, width: usize, exclusion: [usize; 4]) -> (spawns: Self)
        requires
            bag.wf(),
            bag.count > 0 ==> width > 0,
        ensures
            spawns.wf(),
            spawns.max == max,
            spawns.taken == 0,
            spawns.bag == bag,
            spawns.width == width,
            spawns.exclusion == exclusion,
    {
        SpawnIterator { max, taken: 0, bag, width, exclusion }
    }

    /// The next spawn cell: the cell of the first value of the sampler
    /// that lies outside the excluded region. There is none once `max`
    /// cells were handed out or the sampler has run out.
    pub fn next(&mut self) -> (cell: Option<Coord>)
        requires
            old(self).wf(),
        ensures
            final(self).wf(),
            final(self).max == old(self).max,
            final(self).width == old(self).width,
            final(self).exclusion == old(self).exclusion,
            final(self).bag.count == old(self).bag.count,
            final(self).bag.prime == old(self).bag.prime,
            final(self).bag.skip == old(self).bag.skip,
            old(self).taken >= old(self).max ==> cell is None && *final(self) == *old(self),
            old(self).taken < old(self).max ==> ({
                let since = old(self).bag.history().len() as int;
                let drawn = final(self).drawn_since(since);
                &&& since <= final(self).bag.history().len()
                &&& final(self).bag.history().take(since) == old(self).bag.history()
                &&& forall|i: int|
                    0 <= i < drawn.len() - 1 ==> excluded(
                        old(self).exclusion@,
                        coord_at(#[trigger] drawn[i] as int, old(self).width as int),
                    )
                &&& match cell {
                    Some(c) => {
                        &&& drawn.len() > 0
                        &&& c == coord_at(drawn.last() as int, old(self).width as int)
                        &&& !excluded(old(self).exclusion@, c)
                        &&& final(self).taken == old(self).taken + 1
                    },
                    None => {
                        &&& final(self).bag.returned >= final(self).bag.count
                        &&& drawn.len() > 0 ==> excluded(
                            old(self).exclusion@,
                            coord_at(drawn.last() as int, old(self).width as int),
                        )
                        &&& final(self).taken == old(self).taken
                    },
                }
            }),
    {
        if self.taken >= self.max {
            return None;
        }
        let ghost since = self.bag.history().len() as int;
        let ghost first = self.bag.history();
        assert(self.bag.history().take(since) =~= first);
        loop
            invariant
                self.wf(),
                self.max == old(self).max,
                self.taken == old(self).taken,
                self.taken < self.max,
                self.width == old(self).width,
                self.exclusion == old(self).exclusion,
                self.bag.count == old(self).bag.count,
                self.bag.prime == old(self).bag.prime,
                self.bag.skip == old(self).bag.skip,
                first == old(self).bag.history(),
                since == first.len(),
                since <= self.bag.history().len(),
                self.bag.history().take(since) == first,
                forall|i: int|
                    0 <= i < self.drawn_since(since).len() ==> excluded(
                        self.exclusion@,
                        coord_at(#[trigger] self.drawn_since(since)[i] as int, self.width as int),
                    ),
            decreases self.bag.count - self.bag.returned,
        {
            let ghost before = self.bag.history();
            let ghost drawn_before = self.drawn_since(since);
            match self.bag.next() {
                Some(value) => {
                    proof {
                        assert(self.bag.history() == before.push(value));
                        assert(self.bag.history().take(since) =~= before.take(since));
                        assert(self.drawn_since(since) =~= drawn_before.push(value));
                    }
                    let coord = d1_to_d2(value, self.width);
                    assert(coord == coord_at(value as int, self.width as int));
                    if !is_excluded(&self.exclusion, coord) {
                        self.taken = self.taken + 1;
                        proof {
                            let drawn = self.drawn_since(since);
                            assert forall|i: int| 0 <= i < drawn.len() - 1 implies excluded(
                                self.exclusion@,
                                coord_at(#[trigger] drawn[i] as int, self.width as int),
                            ) by {
                                assert(drawn[i] == drawn_before[i]);
                            }
                        }
                        return Some(coord);
                    }
                    proof {
                        let drawn = self.drawn_since(since);
                        assert forall|i: int| 0 <= i < drawn.len() implies excluded(
                            self.exclusion@,
                            coord_at(#[trigger] drawn[i] as int, self.width as int),
                        ) by {
                            if i < drawn_before.len() {
                                assert(drawn[i] == drawn_before[i]);
                            }
                        }
                    }
                },
                None => {
                    return None;
                },
            }
        }
    }

    /// How many cells may still come: none at least, `max` at most.
    pub fn size_hint(&self) -> (bounds: (usize, Option<usize>))
        ensures
            bounds == (0usize, Some(self.max)),
    {
        (0, Some(self.max))
    }
}

} // verus!
