//! A small linear congruential generator and vectors of random items.

use vstd::prelude::*;

verus! {

/// The multiplier of the generator.
pub const MULTIPLIER: u64 = 1_103_515_245;

/// The increment of the generator.
pub const INCREMENT: u64 = 12_345;

/// The modulus of the generator: its states lie below it.
pub const MODULUS: u64 = 0x8000_0000;

/// The error of a clock that stands before the epoch.
#[verifier::external_type_specification]
#[verifier::external_body]
pub struct ExSystemTimeError(std::time::SystemTimeError);

/// The time since the Unix epoch, by `std::time::SystemTime::elapsed`.
/// Nothing is claimed of it: it is whatever the clock says.
#[verifier::external_body]
fn time_since_epoch() -> (res: Result<std::time::Duration, std::time::SystemTimeError>) {
    std::time::UNIX_EPOCH.elapsed()
}

/// The whole milliseconds of a duration, by `std::time::Duration::as_millis`.
/// Nothing is claimed of the number.
#[verifier::external_body]
fn whole_millis(d: &std::time::Duration) -> (res: u128) {
    d.as_millis()
}

/// The state that follows `state`.
pub open spec fn lcg_next(state: int) -> int {
    (state * MULTIPLIER + INCREMENT) % (MODULUS as int)
}

/// The state after `n` steps from `state`.
pub open spec fn state_after(state: int, n: nat) -> int
    decreases n,
{
    if n == 0 {
        state
    } else {
        lcg_next(state_after(state, (n - 1) as nat))
    }
}

/// A state scaled from `0..MODULUS` to `min..max`; where `max` lies below
/// `min`, to the numbers above `max` up to `min`.
pub open spec fn scaled(state: int, min: int, max: int) -> int {
    if min <= max {
        min + ((max - min) * state) / (MODULUS as int)
    } else {
        min - ((min - max) * state) / (MODULUS as int)
    }
}

/// The first `n` items that a generator in `state` draws from `0..max`.
pub open spec fn random_items(state: int, n: nat, max: int) -> Seq<i32> {
    Seq::new(n, |i: int| scaled(state_after(state, (i + 1) as nat), 0, max) as i32)
}

/// A part `state / MODULUS` of a range is smaller than the range.
pub proof fn lemma_part_of_range(range: int, state: int)
    requires
        0 <= state < MODULUS,
        0 <= range,
    ensures
        0 <= range * state,
        0 <= (range * state) / (MODULUS as int) <= range,
        0 < range ==> (range * state) / (MODULUS as int) < range,
{
    let m = MODULUS as int;
    assert(0 <= range * state) by (nonlinear_arith)
        requires
            0 <= range,
            0 <= state,
    ;
    if range > 0 {
        assert(range * state < range * m) by (nonlinear_arith)
            requires
                0 < range,
                0 <= state < m,
        ;
        assert((range * state) / m < range) by (nonlinear_arith)
            requires
                0 <= range * state < range * m,
                m > 0,
        ;
    } else {
        assert(range * state == 0) by (nonlinear_arith)
            requires
                range == 0,
        ;
    }
    assert(0 <= (range * state) / m) by (nonlinear_arith)
        requires
            0 <= range * state,
            m > 0,
    ;
}

/// A scaled state lies in `min..max`, or is `min` where that range is empty;
/// where `max` lies below `min`, it lies above `max` and not above `min`.
pub proof fn lemma_scaled_range(state: int, min: int, max: int)
    requires
        0 <= state < MODULUS,
    ensures
        min <= max ==> min <= scaled(state, min, max) <= max,
        min < max ==> scaled(state, min, max) < max,
        max < min ==> max < scaled(state, min, max) <= min,
{
    if min <= max {
        lemma_part_of_range(max - min, state);
    } else {
        lemma_part_of_range(min - max, state);
    }
}

/// A pseudo-random number generator.
pub struct Prng {
    seed: u32,
}

impl Prng {
    /// The state of the generator.
    pub closed spec fn state(&self) -> int {
        self.seed as int
    }

    /// A generator seeded from the clock.
    pub fn new() -> (prng: Prng) {
        let millis: Option<u128> = match time_since_epoch() {
            Ok(d) => Some(whole_millis(&d)),
            Err(_) => None,
        };
        Prng::from_seed(seed_from_clock(millis))
    }

    /// A generator that starts in the state `seed`.
    pub fn from_seed(seed: u32) -> (prng: Prng)
        ensures
            prng.state() == seed,
    {
        Prng { seed }
    }

    /// Steps the generator and returns its new state, a number below
    /// `MODULUS`.
    pub fn next_u32(&mut self) -> (res: u32)
        ensures
            res == lcg_next(old(self).state()),
            final(self).state() == res,
            res < MODULUS,
    {
        let s: u64 = self.seed as u64;
        assert(s * MULTIPLIER + INCREMENT <= u64::MAX) by (nonlinear_arith)
            requires
                0 <= s <= 0xffff_ffff,
        ;
        let next: u64 = (s * MULTIPLIER + INCREMENT) % MODULUS;
        self.seed = next as u32;
        self.seed
    }

    /// Steps the generator and returns a number in `min..max`; `min` where
    /// the two are equal, and a number above `max` up to `min` where `max` is
    /// the smaller.
    pub fn next_i32(&mut self, min: i32, max: i32) -> (res: i32)
        ensures
            final(self).state() == lcg_next(old(self).state()),
            res == scaled(final(self).state(), min as int, max as int),
            min <= max ==> min <= res <= max,
            min < max ==> res < max,
            max < min ==> max < res <= min,
    {
        let state: i64 = self.next_u32() as i64;
        proof {
            lemma_scaled_range(state as int, min as int, max as int);
        }
        if min <= max {
            let range: i64 = max as i64 - min as i64;
            proof {
                lemma_part_of_range(range as int, state as int);
                assert(range * state <= 0xffff_ffff * 0x8000_0000) by (nonlinear_arith)
                    requires
                        0 <= range <= 0xffff_ffff,
                        0 <= state <= 0x8000_0000,
                ;
            }
            (min as i64 + (range * state) / (MODULUS as i64)) as i32
        } else {
            let range: i64 = min as i64 - max as i64;
            proof {
                lemma_part_of_range(range as int, state as int);
                assert(range * state <= 0xffff_ffff * 0x8000_0000) by (nonlinear_arith)
                    requires
                        0 <= range <= 0xffff_ffff,
                        0 <= state <= 0x8000_0000,
                ;
            }
            (min as i64 - (range * state) / (MODULUS as i64)) as i32
        }
    }
}

/// The seed for a clock reading in milliseconds: its low 32 bits, and 0
/// where the clock gave no reading.
pub open spec fn clock_seed(millis: Option<u128>) -> int {
    match millis {
        Some(m) => m as int % 0x1_0000_0000,
        None => 0,
    }
}

/// The seed for a clock reading in milliseconds since the epoch, or for the
/// lack of one.
pub fn seed_from_clock(millis: Option<u128>) -> (seed: u32)
    ensures
        seed == clock_seed(millis),
{
    match millis {
        Some(m) => (m % 0x1_0000_0000) as u32,
        None => 0,
    }
}

/// The items lie in `0..max`, are 0 where `max` is 0, and lie above `max` up
/// to 0 where `max` is negative.
pub open spec fn all_within(s: Seq<i32>, max: int) -> bool {
    forall|i: int|
        0 <= i < s.len() ==> {
            &&& 0 <= max ==> 0 <= #[trigger] s[i] <= max
            &&& 0 < max ==> s[i] < max
            &&& max < 0 ==> max < s[i] <= 0
        }
}

/// `num_items` items drawn from `0..max` by the generator.
pub fn draw_items(prng: &mut Prng, num_items: i32, max: i32) -> (vec: Vec<i32>)
    requires
        0 <= num_items,
    ensures
        vec@ == random_items(old(prng).state(), num_items as nat, max as int),
        final(prng).state() == state_after(old(prng).state(), num_items as nat),
        all_within(vec@, max as int),
{
    let ghost start = prng.state();
    let mut vec: Vec<i32> = Vec::with_capacity(num_items as usize);
    let mut i: i32 = 0;
    while i < num_items
        invariant
            0 <= i <= num_items,
            vec@.len() == i,
            prng.state() == state_after(start, i as nat),
            forall|t: int|
                0 <= t < i ==> #[trigger] vec@[t] == scaled(
                    state_after(start, (t + 1) as nat),
                    0,
                    max as int,
                ),
            all_within(vec@, max as int),
        decreases num_items - i,
    {
        let x: i32 = prng.next_i32(0, max);
        vec.push(x);
        i += 1;
    }
    assert(vec@ =~= random_items(start, num_items as nat, max as int));
    vec
}

/// `num_items` random items from `0..max`, from a generator seeded by the
/// clock.
pub fn make_random_vec(num_items: i32, max: i32) -> (vec: Vec<i32>)
    requires
        0 <= num_items,
    ensures
        vec@.len() == num_items,
        all_within(vec@, max as int),
{
    let mut prng = Prng::new();
    draw_items(&mut prng, num_items, max)
}

} // verus!
