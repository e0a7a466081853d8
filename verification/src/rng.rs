//! The brush's random numbers: a lagged Fibonacci generator on fractions
//! with 52 bits.
//!
//! Fractions are held as integers in units of 2^-52.
use crate::double::{wide_nearest, wide_signed, Double, WIDE_INFINITY};
use crate::range::{lemma_nearest_at_least, lemma_nearest_at_most, lemma_one};
use crate::rounding::{
    code, lemma_magnitude_increases, lemma_short_is_exact, magnitude, round_scaled,
};
use crate::single::{lemma_infinity_units, lemma_magnitude_zero, Single, ONE};
use vstd::arithmetic::power2::*;
use vstd::prelude::*;

verus! {

/// The long lag.
pub const KK: usize = 10;

/// The short lag.
pub const LL: usize = 7;

/// How far streams are kept apart.
pub const TT: u32 = 7;

/// How many numbers are made at a time.
pub const QUALITY: usize = 19;

/// One, in units of 2^-52.
pub const UNIT: u64 = 0x10_0000_0000_0000;

/// The sum of two fractions, without its integer part.
pub open spec fn mod_sum_spec(x: int, y: int) -> int {
    (x + y) % (UNIT as int)
}

fn mod_sum(x: u64, y: u64) -> (r: u64)
    requires
        x < UNIT,
        y < UNIT,
    ensures
        r == mod_sum_spec(x as int, y as int),
        r < UNIT,
{
    (x + y) % UNIT
}

/// The sequence that goes on from ten numbers: each is the sum of those ten
/// and seven places before.
pub open spec fn lagged(s: Seq<int>, j: nat) -> int
    decreases j,
{
    if j < 10 {
        s[j as int]
    } else {
        mod_sum_spec(lagged(s, (j - 10) as nat), lagged(s, (j - 7) as nat))
    }
}

/// `n` numbers of the sequence from place `start` on.
pub open spec fn stretch(s: Seq<int>, start: nat, n: nat) -> Seq<int> {
    Seq::new(n, |i: int| lagged(s, (start + i) as nat))
}

/// An array of numbers, as mathematics.
pub open spec fn ints<const N: usize>(a: [u64; N]) -> Seq<int> {
    Seq::new(N as nat, |i: int| a@[i] as int)
}

/// All numbers of an array are fractions.
pub open spec fn fractions<const N: usize>(a: [u64; N]) -> bool {
    forall|i: int| 0 <= i < N ==> #[trigger] a@[i] < UNIT
}

/// Makes the next `n` numbers of the sequence, and moves the ten numbers on
/// past them.
pub fn get_array<const N: usize>(ran_u: &mut [u64; 10], aa: &mut [u64; N], n: usize)
    requires
        fractions(*old(ran_u)),
        10 <= n <= N,
    ensures
        fractions(*final(ran_u)),
        ints(*final(aa)).take(n as int) == stretch(ints(*old(ran_u)), 0, n as nat),
        ints(*final(aa)).skip(n as int) == ints(*old(aa)).skip(n as int),
        ints(*final(ran_u)) == stretch(ints(*old(ran_u)), n as nat, 10),
        forall|i: int| 0 <= i < n ==> #[trigger] final(aa)@[i] < UNIT,
{
    let ghost s = ints(*ran_u);
    let ghost before = aa@;
    let mut j: usize = 0;
    while j < KK
        invariant
            j <= KK,
            10 <= n <= N,
            fractions(*ran_u),
            s == ints(*ran_u),
            forall|i: int|
                0 <= i < j ==> #[trigger] aa@[i] < UNIT && aa@[i] == lagged(s, i as nat),
            forall|i: int| n <= i < N ==> #[trigger] aa@[i] == before[i],
        decreases KK - j,
    {
        aa[j] = ran_u[j];
        j += 1;
    }
    while j < n
        invariant
            KK <= j <= n,
            10 <= n <= N,
            fractions(*ran_u),
            s == ints(*ran_u),
            forall|i: int|
                0 <= i < j ==> #[trigger] aa@[i] < UNIT && aa@[i] == lagged(s, i as nat),
            forall|i: int| n <= i < N ==> #[trigger] aa@[i] == before[i],
        decreases n - j,
    {
        aa[j] = mod_sum(aa[j - KK], aa[j - LL]);
        j += 1;
    }
    let mut i: usize = 0;
    while i < LL
        invariant
            i <= LL,
            10 <= n <= N,
            fractions(*ran_u),
            forall|k: int|
                0 <= k < n ==> #[trigger] aa@[k] < UNIT && aa@[k] == lagged(s, k as nat),
            forall|k: int| 0 <= k < i ==> #[trigger] ran_u@[k] == lagged(s, (n + k) as nat),
        decreases LL - i,
    {
        ran_u[i] = mod_sum(aa[n - KK + i], aa[n - LL + i]);
        i += 1;
    }
    while i < KK
        invariant
            LL <= i <= KK,
            10 <= n <= N,
            fractions(*ran_u),
            forall|k: int|
                0 <= k < n ==> #[trigger] aa@[k] < UNIT && aa@[k] == lagged(s, k as nat),
            forall|k: int| 0 <= k < i ==> #[trigger] ran_u@[k] == lagged(s, (n + k) as nat),
        decreases KK - i,
    {
        assert(ran_u@[i - LL] == lagged(s, (n + i - LL) as nat));
        ran_u[i] = mod_sum(aa[n - KK + i], ran_u[i - LL]);
        i += 1;
    }
    assert(ints(*aa).take(n as int) =~= stretch(s, 0, n as nat));
    assert(ints(*aa).skip(n as int) =~= ints(*old(aa)).skip(n as int));
    assert(ints(*ran_u) =~= stretch(s, n as nat, 10));
}

/// A number doubled, wrapped around so that it stays even and below one.
pub open spec fn doubled(ss: int) -> int {
    if 2 * ss >= UNIT {
        2 * ss - (UNIT - 2)
    } else {
        2 * ss
    }
}

/// The seed doubled `j` times.
pub open spec fn seed_term(seed: int, j: nat) -> int
    decreases j,
{
    if j == 0 {
        2 * (seed + 2)
    } else {
        doubled(seed_term(seed, (j - 1) as nat))
    }
}

/// The numbers that seeding starts from: the second, and only the second, is
/// odd.
pub open spec fn seed_start(seed: int) -> Seq<int> {
    Seq::new(
        19,
        |j: int|
            if j == 1 {
                seed_term(seed, 1) + 1
            } else if j < 10 {
                seed_term(seed, j as nat)
            } else {
                0
            },
    )
}

/// Numbers spread out to every other place.
pub open spec fn spread(u: Seq<int>) -> Seq<int> {
    Seq::new(
        19,
        |k: int|
            if k % 2 == 0 {
                u[k / 2]
            } else {
                0
            },
    )
}

/// The number at place `j` folded back by both lags.
pub open spec fn fold_step(u: Seq<int>, j: int) -> Seq<int> {
    u.update(j - 3, mod_sum_spec(u[j - 3], u[j])).update(j - 10, mod_sum_spec(u[j - 10], u[j]))
}

/// The numbers from place 18 down to place `j` folded back.
pub open spec fn folded(u: Seq<int>, j: int) -> Seq<int>
    decreases 19 - j,
{
    if j > 18 {
        u
    } else {
        fold_step(folded(u, j + 1), j)
    }
}

/// Numbers moved up one place, around the end.
pub open spec fn rotated(u: Seq<int>) -> Seq<int> {
    Seq::new(
        19,
        |k: int|
            if k == 0 {
                u[9]
            } else if k == 7 {
                mod_sum_spec(u[6], u[9])
            } else if k <= 10 {
                u[k - 1]
            } else {
                u[k]
            },
    )
}

/// One round of seeding, for the lowest bit of `s`.
pub open spec fn seed_round(u: Seq<int>, s: int) -> Seq<int> {
    let w = folded(spread(u), 10);
    if s % 2 == 1 {
        rotated(w)
    } else {
        w
    }
}

/// The rounds of seeding: one for every bit of `s`, then `t` more.
pub open spec fn seed_rounds(u: Seq<int>, s: int, t: int) -> Seq<int>
    decreases t, s,
{
    if t <= 0 || s < 0 {
        u
    } else if s != 0 {
        seed_rounds(seed_round(u, s), s / 2, t)
    } else {
        seed_rounds(seed_round(u, s), s, t - 1)
    }
}

/// The ten numbers that a generator begins with.
pub open spec fn arranged(u: Seq<int>) -> Seq<int> {
    Seq::new(
        10,
        |k: int|
            if k < 3 {
                u[k + 7]
            } else {
                u[k - 3]
            },
    )
}

/// The ten numbers after `n` more batches.
pub open spec fn advanced(s: Seq<int>, n: nat) -> Seq<int>
    decreases n,
{
    if n == 0 {
        s
    } else {
        stretch(advanced(s, (n - 1) as nat), 19, 10)
    }
}

/// The ten numbers of a generator with a given seed.
pub open spec fn seeded(seed: u32) -> Seq<int> {
    let m = seed as int % 0x4000_0000;
    advanced(arranged(seed_rounds(seed_start(m), m, TT - 1)), 10)
}

proof fn lemma_seed_term(seed: int, j: nat)
    requires
        0 <= seed < 0x4000_0000,
    ensures
        0 <= seed_term(seed, j) <= UNIT - 2,
        seed_term(seed, j) % 2 == 0,
    decreases j,
{
    if j > 0 {
        lemma_seed_term(seed, (j - 1) as nat);
    }
}

fn start_seed(seed: u64) -> (u: [u64; 19])
    requires
        seed < 0x4000_0000,
    ensures
        ints(u) == seed_start(seed as int),
        fractions(u),
{
    let mut u: [u64; 19] = [0;19];
    let mut ss: u64 = 2 * (seed + 2);
    let mut j: usize = 0;
    while j < KK
        invariant
            j <= KK,
            seed < 0x4000_0000,
            ss == seed_term(seed as int, j as nat),
            forall|k: int| 0 <= k < j ==> #[trigger] u@[k] == seed_term(seed as int, k as nat),
            forall|k: int| j <= k < 19 ==> #[trigger] u@[k] == 0,
        decreases KK - j,
    {
        proof {
            lemma_seed_term(seed as int, j as nat);
        }
        u[j] = ss;
        ss = ss + ss;
        if ss >= UNIT {
            ss = ss - (UNIT - 2);
        }
        j += 1;
    }
    proof {
        assert forall|k: int| 0 <= k < 10 implies #[trigger] u@[k] <= UNIT - 2 by {
            lemma_seed_term(seed as int, k as nat);
        }
    }
    u[1] = u[1] + 1;
    assert(ints(u) =~= seed_start(seed as int));
    u
}

fn spread_out(u: &mut [u64; 19])
    requires
        fractions(*old(u)),
    ensures
        fractions(*final(u)),
        ints(*final(u)) == spread(ints(*old(u))),
{
    let ghost before = *u;
    let mut j: usize = KK - 1;
    while j > 0
        invariant
            j <= 9,
            fractions(*u),
            forall|k: int| 0 <= k <= j ==> #[trigger] u@[k] == before@[k],
            forall|k: int|
                2 * j < k < 19 ==> #[trigger] u@[k] == (if k % 2 == 0 {
                    before@[k / 2]
                } else {
                    0u64
                }),
        decreases j,
    {
        u[j + j] = u[j];
        u[j + j - 1] = 0;
        j -= 1;
    }
    assert(ints(*u) =~= spread(ints(before)));
}

fn fold_back(u: &mut [u64; 19])
    requires
        fractions(*old(u)),
    ensures
        fractions(*final(u)),
        ints(*final(u)) == folded(ints(*old(u)), 10),
{
    let ghost before = ints(*u);
    let mut j: usize = KK + KK - 1;
    while j > KK
        invariant
            10 <= j <= 19,
            fractions(*u),
            ints(*u) == folded(before, j as int),
        decreases j,
    {
        j -= 1;
        let ghost last = ints(*u);
        u[j - (KK - LL)] = mod_sum(u[j - (KK - LL)], u[j]);
        u[j - KK] = mod_sum(u[j - KK], u[j]);
        assert(ints(*u) =~= fold_step(last, j as int));
    }
}

fn rotate(u: &mut [u64; 19])
    requires
        fractions(*old(u)),
    ensures
        fractions(*final(u)),
        ints(*final(u)) == rotated(ints(*old(u))),
{
    let ghost before = *u;
    let mut j: usize = KK;
    while j > 0
        invariant
            j <= 10,
            fractions(*u),
            forall|k: int| 0 <= k <= j ==> #[trigger] u@[k] == before@[k],
            forall|k: int| j < k <= 10 ==> #[trigger] u@[k] == before@[k - 1],
            forall|k: int| 10 < k < 19 ==> #[trigger] u@[k] == before@[k],
        decreases j,
    {
        u[j] = u[j - 1];
        j -= 1;
    }
    u[0] = u[KK];
    u[LL] = mod_sum(u[LL], u[KK]);
    assert(ints(*u) =~= rotated(ints(before)));
}

/// A random number generator.
#[derive(Clone, Copy, Debug)]
pub struct BrushRng {
    ran_u: [u64; 10],
    buf: [u64; 19],
    buf_pos: usize,
}

/// The state of a generator: its ten numbers, the batch that it is handing
/// out, and how much of that is used up.
#[verifier::ext_equal]
pub struct RngState {
    pub numbers: Seq<int>,
    pub batch: Seq<int>,
    pub used: int,
}

/// The state of a generator with a seed, whose batch is used up.
pub open spec fn new_state(seed: u32) -> RngState {
    RngState {
        numbers: seeded(seed),
        batch: Seq::new(19, |i: int| 0int),
        used: QUALITY as int,
    }
}

/// The next number: from the batch, or from a new one when ten are used up.
pub open spec fn next_number(s: RngState) -> int {
    if s.used >= 10 {
        s.numbers[0]
    } else {
        s.batch[s.used]
    }
}

/// A state that a generator can be in: all its numbers are fractions.
pub open spec fn proper(s: RngState) -> bool {
    &&& s.numbers.len() == 10
    &&& s.batch.len() == 19
    &&& 0 <= s.used <= 19
    &&& forall|i: int| 0 <= i < 10 ==> 0 <= #[trigger] s.numbers[i] < UNIT
    &&& forall|i: int| 0 <= i < 19 ==> 0 <= #[trigger] s.batch[i] < UNIT
}

/// The state after a number is drawn.
pub open spec fn after_draw(s: RngState) -> RngState {
    if s.used >= 10 {
        RngState {
            numbers: stretch(s.numbers, 19, 10),
            batch: stretch(s.numbers, 0, 19),
            used: 1,
        }
    } else {
        RngState { used: s.used + 1, ..s }
    }
}

/// The state after `n` numbers are drawn.
pub open spec fn after_draws(s: RngState, n: nat) -> RngState
    decreases n,
{
    if n == 0 {
        s
    } else {
        after_draw(after_draws(s, (n - 1) as nat))
    }
}

/// A fraction in units of 2^-52.
pub open spec fn fraction_of(u: int) -> Double {
    wide_signed(false, wide_nearest((u * pow2(1022)) as nat, 1))
}

/// The greatest single below one.
pub const BELOW_ONE: u32 = 0x3f7f_ffff;

/// A fraction in units of 2^-52 as a single: the nearest one that is below one.
pub open spec fn single_of(u: int) -> Single {
    let v = fraction_of(u).narrow_spec();
    if v.lt_spec(Single { bits: ONE }) {
        v
    } else {
        Single { bits: BELOW_ONE }
    }
}

/// The square root of three, and twice that, to eleven decimals.
pub const SPREAD: u64 = 0x3ffb_b67a_e858_606b;

pub const MEAN: u64 = 0x400b_b67a_e858_606b;

/// A number from four fractions that is distributed about like a standard
/// normal one.
pub open spec fn gauss_of(a: int, b: int, c: int, d: int) -> Single {
    fraction_of(a).plus_spec(fraction_of(b)).plus_spec(fraction_of(c)).plus_spec(
        fraction_of(d),
    ).times_spec(Double { bits: SPREAD }).minus_spec(Double { bits: MEAN }).narrow_spec()
}

impl BrushRng {
    pub closed spec fn state(&self) -> RngState {
        RngState { numbers: ints(self.ran_u), batch: ints(self.buf), used: self.buf_pos as int }
    }

    /// All numbers are fractions.
    pub closed spec fn wf(&self) -> bool {
        fractions(self.ran_u) && fractions(self.buf) && self.buf_pos <= QUALITY
    }

    /// The generator in a state.
    #[verifier::opaque]
    closed spec fn holding(s: RngState) -> BrushRng {
        let n = |i: int| s.numbers[i] as u64;
        let b = |i: int| s.batch[i] as u64;
        BrushRng {
            ran_u: [n(0), n(1), n(2), n(3), n(4), n(5), n(6), n(7), n(8), n(9)],
            buf: [
                b(0), b(1), b(2), b(3), b(4), b(5), b(6), b(7), b(8), b(9), b(10), b(11), b(12),
                b(13), b(14), b(15), b(16), b(17), b(18),
            ],
            buf_pos: s.used as usize,
        }
    }

    /// The generator after a number is drawn.
    pub closed spec fn drawn(self) -> BrushRng {
        BrushRng::holding(after_draw(self.state()))
    }

    /// The next number as a single.
    pub open spec fn unit(self) -> Single {
        single_of(next_number(self.state()))
    }

    /// The next normal number.
    pub open spec fn gauss(self) -> Single {
        gauss_of(
            next_number(self.state()),
            next_number(self.drawn().state()),
            next_number(self.drawn().drawn().state()),
            next_number(self.drawn().drawn().drawn().state()),
        )
    }

    /// The generator after a normal number is drawn.
    pub open spec fn drawn_gauss(self) -> BrushRng {
        self.drawn().drawn().drawn().drawn()
    }

    /// The generator with a seed.
    pub closed spec fn of_seed(seed: u32) -> BrushRng {
        BrushRng::holding(new_state(seed))
    }

    /// A state of fractions can be held.
    proof fn lemma_holding(s: RngState)
        requires
            proper(s),
        ensures
            BrushRng::holding(s).wf(),
            BrushRng::holding(s).state() == s,
    {
        reveal(BrushRng::holding);
        let r = BrushRng::holding(s);
        assert forall|i: int| 0 <= i < 10 implies #[trigger] r.ran_u@[i] == s.numbers[i] by {
            assert(0 <= s.numbers[i] < UNIT);
        }
        assert forall|i: int| 0 <= i < 19 implies #[trigger] r.buf@[i] == s.batch[i] by {
            assert(0 <= s.batch[i] < UNIT);
        }
        assert(ints(r.ran_u) =~= s.numbers);
        assert(ints(r.buf) =~= s.batch);
    }

    /// A generator is its state.
    proof fn lemma_state_is_all(self)
        requires
            self.wf(),
        ensures
            proper(self.state()),
            self == BrushRng::holding(self.state()),
    {
        let s = self.state();
        let r = BrushRng::holding(s);
        assert(proper(s));
        BrushRng::lemma_holding(s);
        assert forall|i: int| 0 <= i < 10 implies self.ran_u[i] == r.ran_u[i] by {
            assert(ints(self.ran_u)[i] == ints(r.ran_u)[i]);
        }
        assert(self.ran_u =~= r.ran_u);
        assert forall|i: int| 0 <= i < 19 implies self.buf[i] == r.buf[i] by {
            assert(ints(self.buf)[i] == ints(r.buf)[i]);
        }
        assert(self.buf =~= r.buf);
    }

    /// A generator with a seed.
    pub fn new(seed: u32) -> (r: BrushRng)
        ensures
            r.wf(),
            r.state() == new_state(seed),
            r == BrushRng::of_seed(seed),
    {
        let mut rng = BrushRng { ran_u: [0;10], buf: [0;19], buf_pos: QUALITY };
        assert(ints(rng.buf) =~= new_state(seed).batch);
        rng.set_seed(seed);
        proof {
            assert(rng.state() =~= new_state(seed));
            rng.lemma_state_is_all();
        }
        rng
    }

    fn set_seed(&mut self, seed: u32)
        requires
            old(self).wf(),
        ensures
            final(self).wf(),
            final(self).state() == (RngState {
                numbers: seeded(seed),
                batch: old(self).state().batch,
                used: QUALITY as int,
            }),
    {
        let m: u64 = (seed % 0x4000_0000) as u64;
        let mut u: [u64; 19] = start_seed(m);
        let mut s: u64 = m;
        let mut t: u32 = TT - 1;
        let ghost goal = seed_rounds(ints(u), s as int, t as int);
        while t != 0
            invariant
                t <= 6,
                fractions(u),
                goal == seed_rounds(ints(u), s as int, t as int),
            decreases t, s,
        {
            spread_out(&mut u);
            fold_back(&mut u);
            if s % 2 == 1 {
                rotate(&mut u);
            }
            if s != 0 {
                s = s / 2;
            } else {
                t = t - 1;
            }
        }
        let ran: [u64; 10] = [u[7], u[8], u[9], u[0], u[1], u[2], u[3], u[4], u[5], u[6]];
        assert(ints(ran) =~= arranged(goal));
        self.ran_u = ran;
        let mut warmup: [u64; 19] = [0;19];
        let mut i: u32 = 0;
        while i < 10
            invariant
                i <= 10,
                fractions(self.ran_u),
                fractions(self.buf),
                self.buf == old(self).buf,
                ints(self.ran_u) == advanced(arranged(goal), i as nat),
            decreases 10 - i,
        {
            let mut numbers: [u64; 10] = self.ran_u;
            get_array(&mut numbers, &mut warmup, QUALITY);
            self.ran_u = numbers;
            i += 1;
        }
        self.buf_pos = QUALITY;
    }

    /// The next number, in units of 2^-52.
    fn draw(&mut self) -> (u: u64)
        requires
            old(self).wf(),
        ensures
            final(self).wf(),
            u == next_number(old(self).state()),
            u < UNIT,
            final(self).state() == after_draw(old(self).state()),
            *final(self) == old(self).drawn(),
    {
        let ghost before = *self;
        if self.buf_pos >= KK {
            let mut numbers: [u64; 10] = self.ran_u;
            let mut batch: [u64; 19] = self.buf;
            get_array(&mut numbers, &mut batch, QUALITY);
            self.ran_u = numbers;
            self.buf = batch;
            self.buf_pos = 1;
            assert(ints(batch)[0] == batch@[0]);
            assert(self.state() =~= after_draw(before.state()));
            proof {
                self.lemma_state_is_all();
            }
            self.buf[0]
        } else {
            let v: u64 = self.buf[self.buf_pos];
            self.buf_pos = self.buf_pos + 1;
            proof {
                assert(self.state() =~= after_draw(before.state()));
                self.lemma_state_is_all();
            }
            v
        }
    }

    /// The next number, at least zero and below one.
    pub fn next_unit_f64(&mut self) -> (r: Double)
        requires
            old(self).wf(),
        ensures
            final(self).wf(),
            r == fraction_of(next_number(old(self).state())),
            r.finite(),
            0 <= r.value() < pow2(1074),
            final(self).state() == after_draw(old(self).state()),
            *final(self) == old(self).drawn(),
    {
        let u: u64 = self.draw();
        as_fraction(u)
    }

    /// The next number as a single, in `[0, 1)`.
    pub fn next_unit(&mut self) -> (r: Single)
        requires
            old(self).wf(),
        ensures
            final(self).wf(),
            r == old(self).unit(),
            r.finite(),
            0 <= r.value() < pow2(149),
            final(self).state() == after_draw(old(self).state()),
            *final(self) == old(self).drawn(),
    {
        let u: u64 = self.draw();
        proof {
            law_unit_is_in_range(u as nat);
        }
        let v = as_fraction(u).narrow();
        if v.lt(Single { bits: ONE }) {
            v
        } else {
            Single { bits: BELOW_ONE }
        }
    }

    /// A number that is distributed about like a standard normal one; takes
    /// four numbers of the sequence.
    pub fn next_gauss(&mut self) -> (r: Single)
        requires
            old(self).wf(),
        ensures
            final(self).wf(),
            r == old(self).gauss(),
            final(self).state() == after_draws(old(self).state(), 4),
            *final(self) == old(self).drawn_gauss(),
    {
        proof {
            reveal_with_fuel(after_draws, 5);
        }
        let a = self.next_unit_f64();
        let b = self.next_unit_f64();
        let c = self.next_unit_f64();
        let d = self.next_unit_f64();
        a.plus(b).plus(c).plus(d).times(Double { bits: SPREAD }).minus(
            Double { bits: MEAN },
        ).narrow()
    }
}

/// A fraction in units of 2^-52 as a double; always exact.
fn as_fraction(u: u64) -> (r: Double)
    requires
        u < UNIT,
    ensures
        r == fraction_of(u as int),
        r.finite(),
        0 <= r.value() < pow2(1074),
{
    proof {
        lemma_fraction_of(u as nat);
        lemma_pow2_pos(1022);
        assert(u * pow2(1022) >= 0) by (nonlinear_arith)
            requires
                u >= 0,
                pow2(1022) > 0,
        ;
        lemma2_to64_rest();
        lemma_pow2_strictly_increases(64, 126);
    }
    let c: u128 = round_scaled(u as u128, 1022, 53);
    Double { bits: c as u64 }
}

/// A fraction is exact as a double.
pub proof fn lemma_fraction_of(u: nat)
    requires
        u < UNIT,
    ensures
        fraction_of(u as int).finite(),
        !fraction_of(u as int).negative(),
        fraction_of(u as int).units() == u * pow2(1022),
        u * pow2(1022) < pow2(1074),
        code(u * pow2(1022), 1, 53) < WIDE_INFINITY,
{
    assert(pow2(52) == UNIT && pow2(53) == 2 * UNIT) by {
        lemma2_to64_rest();
    }
    lemma_short_is_exact(u, 1022, 53);
    lemma_pow2_adds(52, 1022);
    lemma_pow2_pos(1022);
    let m = u * pow2(1022);
    assert(m < pow2(1074)) by (nonlinear_arith)
        requires
            m == u * pow2(1022),
            u < pow2(52),
            pow2(1022) > 0,
            pow2(1074) == pow2(52) * pow2(1022),
    ;
    let c = code(m, 1, 53);
    let one: nat = 0x3ff0_0000_0000_0000;
    assert(one / 0x10_0000_0000_0000 == 1023 && one % 0x10_0000_0000_0000 == 0);
    assert(magnitude(one, 53) == (0 + pow2(52)) * pow2(1022));
    if c >= one {
        if c > one {
            lemma_magnitude_increases(one, c, 53);
        }
    }
}

impl Default for BrushRng {
    /// The generator that every brush starts with.
    fn default() -> (r: BrushRng)
        ensures
            r == BrushRng::of_seed(1000),
            r.wf(),
    {
        BrushRng::new(1000)
    }
}

/// The numbers that are handed out between two batches are the first ten of
/// the lagged sequence.
pub proof fn law_batch_is_the_lagged_sequence(s: RngState, n: nat)
    requires
        s.numbers.len() == 10,
        s.used >= 10,
        n < 10,
    ensures
        next_number(after_draws(s, n)) == lagged(s.numbers, n),
{
    lemma_within_batch(s, n);
}

proof fn lemma_within_batch(s: RngState, n: nat)
    requires
        s.numbers.len() == 10,
        s.used >= 10,
        n < 10,
    ensures
        n > 0 ==> after_draws(s, n) == (RngState {
            numbers: stretch(s.numbers, 19, 10),
            batch: stretch(s.numbers, 0, 19),
            used: n as int,
        }),
    decreases n,
{
    if n > 1 {
        lemma_within_batch(s, (n - 1) as nat);
    }
    reveal_with_fuel(after_draws, 2);
}

/// A random number is in `[0, 1)` as a single, and the nearest single unless
/// that is one.
pub proof fn law_unit_is_in_range(u: nat)
    requires
        u < UNIT,
    ensures
        ({
            let r = single_of(u as int);
            &&& r.finite()
            &&& 0 <= r.value() < pow2(149)
            &&& u <= UNIT - 0x1000_0000 ==> r == fraction_of(u as int).narrow_spec()
        }),
{
    lemma_fraction_of(u);
    lemma_one();
    lemma_infinity_units();
    lemma_magnitude_zero();
    reveal(Double::narrow_spec);
    let d = pow2(925);
    let n = fraction_of(u as int).units();
    lemma_pow2_pos(925);
    lemma_pow2_adds(149, 925);
    lemma_nearest_at_most(n, d, ONE as nat);
    lemma_nearest_at_least(n, d, 0);
    let below = BELOW_ONE as nat;
    lemma_magnitude_increases(below, ONE as nat, 24);
    if u <= UNIT - 0x1000_0000 {
        assert(below / 0x80_0000 == 126 && below % 0x80_0000 == 0x7f_ffff);
        assert(pow2(23) == 0x80_0000 && pow2(28) == 0x1000_0000) by {
            lemma2_to64();
        }
        assert(magnitude(below, 24) == (0x7f_ffff + pow2(23)) * pow2(125));
        lemma_pow2_adds(125, 925);
        lemma_pow2_adds(28, 1022);
        assert(n <= ((0x7f_ffff + 0x80_0000) * pow2(125)) * d) by (nonlinear_arith)
            requires
                n == u * pow2(1022),
                u <= 0xff_ffff * 0x1000_0000,
                pow2(125) * d == 0x1000_0000 * pow2(1022),
                pow2(1022) >= 0,
        ;
        lemma_nearest_at_most(n, d, below);
    }
}

proof fn lemma_lagged_is_fraction(s: Seq<int>, j: nat)
    requires
        s.len() == 10,
        forall|i: int| 0 <= i < 10 ==> 0 <= #[trigger] s[i] < UNIT,
    ensures
        0 <= lagged(s, j) < UNIT,
{
}

/// A generator that gave a number can give the next: it is in the state after
/// that number, and all its numbers are still fractions.
pub proof fn law_drawing_can_go_on(r: BrushRng)
    requires
        r.wf(),
    ensures
        r.drawn().wf(),
        r.drawn().state() == after_draw(r.state()),
{
    let s = r.state();
    r.lemma_state_is_all();
    let n = after_draw(s);
    assert forall|i: int| 0 <= i < 10 implies 0 <= #[trigger] n.numbers[i] < UNIT by {
        lemma_lagged_is_fraction(s.numbers, (19 + i) as nat);
        assert(0 <= s.numbers[i] < UNIT);
    }
    assert forall|i: int| 0 <= i < 19 implies 0 <= #[trigger] n.batch[i] < UNIT by {
        lemma_lagged_is_fraction(s.numbers, i as nat);
        assert(0 <= s.batch[i] < UNIT);
    }
    BrushRng::lemma_holding(n);
}

/// The sequence that goes on from a later stretch of a sequence is the rest of
/// it.
proof fn lemma_lagged_goes_on(s: Seq<int>, n: nat, j: nat)
    ensures
        lagged(stretch(s, n, 10), j) == lagged(s, n + j),
    decreases j,
{
    if j >= 10 {
        lemma_lagged_goes_on(s, n, (j - 10) as nat);
        lemma_lagged_goes_on(s, n, (j - 7) as nat);
    }
}

/// Two batches continue one sequence without a gap: they are one batch of both
/// lengths, after which the ten numbers are the same.  A batch begins with the
/// ten numbers, and consists of fractions if they are.
pub proof fn law_batches_continue_one_sequence(s: Seq<int>, n1: nat, n2: nat)
    requires
        s.len() == 10,
        n1 >= 10,
        n2 >= 10,
    ensures
        stretch(s, 0, n1) + stretch(stretch(s, n1, 10), 0, n2) == stretch(s, 0, n1 + n2),
        stretch(stretch(s, n1, 10), n2, 10) == stretch(s, n1 + n2, 10),
        stretch(s, 0, n1).take(10) == s,
        (forall|i: int| 0 <= i < 10 ==> 0 <= #[trigger] s[i] < UNIT) ==> forall|i: int|
            0 <= i < n1 ==> 0 <= #[trigger] stretch(s, 0, n1)[i] < UNIT,
{
    let later = stretch(s, n1, 10);
    assert forall|j: nat| #[trigger] lagged(later, j) == lagged(s, n1 + j) by {
        lemma_lagged_goes_on(s, n1, j);
    }
    assert(stretch(s, 0, n1) + stretch(later, 0, n2) =~= stretch(s, 0, n1 + n2));
    assert(stretch(later, n2, 10) =~= stretch(s, n1 + n2, 10));
    assert(stretch(s, 0, n1).take(10) =~= s);
    if forall|i: int| 0 <= i < 10 ==> 0 <= #[trigger] s[i] < UNIT {
        assert forall|i: int| 0 <= i < n1 implies 0 <= #[trigger] stretch(s, 0, n1)[i] < UNIT by {
            lemma_lagged_is_fraction(s, i as nat);
        }
    }
}

} // verus!
