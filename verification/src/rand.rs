//! The random numbers that thin out colour sampling.
use vstd::prelude::*;

verus! {

/// One less than 2^31, a prime.
pub const C_RAND_MAX: i32 = 0x7fff_ffff;

/// A multiplicative congruential generator.
#[derive(Clone, Copy, Debug, PartialEq, Eq, Structural)]
pub struct SampleRng {
    pub state: u64,
}

/// What takes the place of the state zero.
pub const SPARE_STATE: u64 = 123459876;

/// The state that a step starts from.
pub open spec fn live(state: int) -> int {
    if state == 0 {
        SPARE_STATE as int
    } else {
        state
    }
}

/// What follows a state: 7^5 times it, modulo 2^31 - 1.
pub open spec fn successor(state: int) -> int {
    (16807 * live(state)) % 0x7fff_ffff
}

impl SampleRng {
    /// States below the modulus.
    pub open spec fn wf(self) -> bool {
        self.state < 0x7fff_ffff
    }

    /// A generator in its first state.
    pub fn new() -> (r: SampleRng)
        ensures
            r.wf(),
            r.state == 1,
    {
        SampleRng { state: 1 }
    }

    /// The next random number, between 0 and [`C_RAND_MAX`].
    pub fn c_rand(&mut self) -> (x: i32)
        requires
            old(self).wf(),
        ensures
            final(self).wf(),
            final(self).state == successor(old(self).state as int),
            x == final(self).state,
            0 < x < C_RAND_MAX,
    {
        let from: u64 = if self.state == 0 {
            SPARE_STATE
        } else {
            self.state
        };
        let hi: i64 = (from / 127773) as i64;
        let lo: i64 = (from % 127773) as i64;
        let mut x: i64 = 16807 * lo - 2836 * hi;
        let ghost s = from as int;
        proof {
            assert(16807 * s == 0x7fff_ffff * hi + (16807 * lo - 2836 * hi));
            lemma_never_zero(s);
        }
        if x < 0 {
            x = x + 0x7fff_ffff;
        }
        proof {
            let q = if 16807 * lo - 2836 * hi < 0 {
                hi - 1
            } else {
                hi as int
            };
            vstd::arithmetic::div_mod::lemma_fundamental_div_mod_converse(
                16807 * s,
                0x7fff_ffff,
                q,
                x as int,
            );
        }
        self.state = x as u64;
        x as i32
    }
}

impl Default for SampleRng {
    fn default() -> (r: SampleRng)
        ensures
            r.wf(),
            r.state == 1,
    {
        SampleRng::new()
    }
}

/// 1407677000 undoes a step.
proof fn lemma_never_zero(s: int)
    requires
        0 < s < 0x7fff_ffff,
    ensures
        successor(s) != 0,
        (1407677000 * successor(s)) % 0x7fff_ffff == s,
{
    let m = 0x7fff_ffffint;
    let t = 16807 * s;
    vstd::arithmetic::div_mod::lemma_mul_mod_noop_right(1407677000, t, m);
    assert(1407677000 * t == m * (11017 * s) + s) by {
        assert(1407677000 * 16807 == 0x7fff_ffff * 11017 + 1);
    }
    vstd::arithmetic::div_mod::lemma_fundamental_div_mod_converse(
        1407677000 * t,
        m,
        11017 * s,
        s,
    );
}

/// No two states other than zero have the same successor, and none leads to
/// zero, so the generator runs through a cycle without a run-in.
pub proof fn law_states_do_not_merge(a: SampleRng, b: SampleRng)
    requires
        a.wf(),
        b.wf(),
        a.state > 0,
        b.state > 0,
    ensures
        successor(a.state as int) == successor(b.state as int) ==> a == b,
        0 < successor(a.state as int) < 0x7fff_ffff,
{
    lemma_never_zero(a.state as int);
    lemma_never_zero(b.state as int);
}

/// Puts a generator back into its first state.
pub fn reset_get_color_rng(rng: &mut SampleRng)
    ensures
        final(rng).wf(),
        final(rng).state == 1,
{
    rng.state = 1;
}

} // verus!
