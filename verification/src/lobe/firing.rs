//! When a scored token fires. The state is the active signal, the filter for identifier-like tokens,
//! the cooldown after a fire and the random stream of the softened threshold; nothing here touches
//! the cache.

use super::sampling::{drawn, next_unit_f32, stirred};
use super::types::Signal;
use crate::number::{F32, ZERO_BITS};
use crate::numerics::Numerics;
use crate::text::{
    alphanumeric, ascii_digit, bytes_at_least, byte_len, chars_of, string_of, trim_bounds, trimmed,
    uppercase,
};
use vstd::prelude::*;

verus! {

/// The seed of the firing stream where none is given.
pub const FIRE_SEED: u64 = 0x2545_f491_4f6c_dd1d;

/// The state of the firing decision.
#[derive(Copy, Clone, Debug, PartialEq, Eq, Structural)]
pub struct Firing {
    /// Which value is measured against the baseline.
    pub signal: Signal,
    /// Only identifier-like tokens may fire.
    pub identifiers_only: bool,
    /// For how many more tokens nothing fires.
    pub refractory: usize,
    /// How long nothing fires after a fire.
    pub period: usize,
    /// The random stream of the softened threshold.
    pub fire_rng: u64,
    /// How soft the threshold is, in units of z; zero or below is a hard threshold.
    pub softness: F32,
}

impl Default for Firing {
    fn default() -> (f: Self)
        ensures
            f == (Firing {
                signal: Signal::Surprisal,
                identifiers_only: false,
                refractory: 0,
                period: 0,
                fire_rng: FIRE_SEED,
                softness: F32(ZERO_BITS),
            }),
    {
        Firing {
            signal: Signal::Surprisal,
            identifiers_only: false,
            refractory: 0,
            period: 0,
            fire_rng: FIRE_SEED,
            softness: F32(ZERO_BITS),
        }
    }
}

impl Firing {
    /// Choose the signal and whether only identifier-like tokens may fire.
    pub fn set_signal(&mut self, signal: Signal, identifiers_only: bool)
        ensures
            *final(self) == (Firing { signal, identifiers_only, ..*old(self) }),
    {
        self.signal = signal;
        self.identifiers_only = identifiers_only;
    }

    /// Choose how many tokens stay quiet after a fire; 0 turns the cooldown off.
    pub fn set_refractory(&mut self, period: usize)
        ensures
            *final(self) == (Firing { period, ..*old(self) }),
    {
        self.period = period;
    }

    /// Choose how soft the threshold is.
    pub fn set_softness(&mut self, softness: F32)
        ensures
            *final(self) == (Firing { softness, ..*old(self) }),
    {
        self.softness = softness;
    }

    /// Seed the random stream.
    pub fn seed_rng(&mut self, seed: u64)
        ensures
            *final(self) == (Firing { fire_rng: seed, ..*old(self) }),
    {
        self.fire_rng = seed;
    }

    /// May this text fire at all?
    pub open spec fn admits(self, text: Seq<char>) -> bool {
        !self.identifiers_only || identifier_like(text)
    }

    /// Do all the gates before the threshold stand open?
    pub open spec fn open_for(self, text: Seq<char>, warm: bool, suppressed: bool) -> bool {
        !suppressed && self.refractory == 0 && self.admits(text) && warm
    }

    /// The state after a token, which `fired` and left the random stream at `rng`: one token of the
    /// cooldown has passed, or it starts anew.
    pub open spec fn after(self, fired: bool, rng: u64) -> Firing {
        Firing {
            refractory: if fired {
                self.period
            } else if self.refractory > 0 {
                (self.refractory - 1) as usize
            } else {
                0
            },
            fire_rng: rng,
            ..self
        }
    }

    /// The outcome of comparing `z` with the threshold: a hard threshold draws no number, a soft one
    /// draws one and fires where it falls below the chance.
    pub open spec fn crossed<N: Numerics>(
        self,
        num: &N,
        z: F32,
        z_threshold: F32,
        rng: u64,
        r: bool,
    ) -> bool {
        if self.softness.at_most(F32(ZERO_BITS)) {
            rng == self.fire_rng && r == z_threshold.at_most(z)
        } else {
            exists|p: F32, u: F32|
                #[trigger] drawn(self.fire_rng, rng, u) && r == u.below(p)
                    && #[trigger] call_ensures(
                    N::chance,
                    (num, z, z_threshold, self.softness),
                    p,
                )
        }
    }

    /// The outcome of one decision: a token before a shut gate does not fire and draws nothing; one
    /// before open gates fires where the threshold is crossed.
    pub open spec fn decided<N: Numerics>(
        self,
        num: &N,
        text: Seq<char>,
        z: F32,
        z_threshold: F32,
        warm: bool,
        suppressed: bool,
        next: Firing,
        fired: bool,
    ) -> bool {
        &&& next == self.after(fired, next.fire_rng)
        &&& if self.open_for(text, warm, suppressed) {
            self.crossed(num, z, z_threshold, next.fire_rng, fired)
        } else {
            !fired && next.fire_rng == self.fire_rng
        }
    }

    /// Decide whether a token fires. `suppressed` says that a reset has just happened, `warm` that
    /// the baseline can be relied on. The result is whether it fired, whether the cooldown was on,
    /// and whether the text may fire at all. The threshold comes last, so that the random stream
    /// moves only when every other gate stands open.
    pub fn decide<N: Numerics>(
        &mut self,
        text: &str,
        z: F32,
        z_threshold: F32,
        warm: bool,
        suppressed: bool,
        num: &N,
    ) -> (r: (bool, bool, bool))
        ensures
            old(self).decided(
                num,
                text@,
                z,
                z_threshold,
                warm,
                suppressed,
                *final(self),
                r.0,
            ),
            r.1 == (old(self).refractory > 0),
            r.2 == old(self).admits(text@),
    {
        let in_refractory: bool = self.refractory > 0;
        if in_refractory {
            self.refractory = self.refractory - 1;
        }
        let gate: bool = !self.identifiers_only || looks_like_identifier(text);
        let fired: bool = !suppressed && !in_refractory && gate && warm && self.crosses(
            z,
            z_threshold,
            num,
        );
        if fired {
            self.refractory = self.period;
        }
        (fired, in_refractory, gate)
    }

    fn crosses<N: Numerics>(&mut self, z: F32, z_threshold: F32, num: &N) -> (r: bool)
        ensures
            old(self).crossed(num, z, z_threshold, final(self).fire_rng, r),
            *final(self) == (Firing { fire_rng: final(self).fire_rng, ..*old(self) }),
    {
        if self.softness.le(F32(ZERO_BITS)) {
            return z_threshold.le(z);
        }
        let p: F32 = num.chance(z, z_threshold, self.softness);
        let u: F32 = next_unit_f32(&mut self.fire_rng);
        assert(call_ensures(N::chance, (num, z, z_threshold, old(self).softness), p));
        assert(drawn(old(self).fire_rng, self.fire_rng, u));
        u.lt(p)
    }
}

/// A word of at least two bytes, made of letters, digits and underscores, that has an underscore or a
/// digit or starts with a capital letter.
pub open spec fn identifier_like(text: Seq<char>) -> bool {
    let t = trimmed(text);
    &&& byte_len(t) >= 2
    &&& forall|i: int| 0 <= i < t.len() ==> alphanumeric(#[trigger] t[i]) || t[i] == '_'
    &&& {
        ||| uppercase(t[0])
        ||| exists|i: int| 0 <= i < t.len() && (#[trigger] t[i] == '_' || ascii_digit(t[i]))
    }
}

/// Does a token look like an identifier or a name: a code identifier, a proper noun, something with a
/// number in it?
pub fn looks_like_identifier(text: &str) -> (r: bool)
    ensures
        r == identifier_like(text@),
{
    let v = chars_of(text);
    let (a, b) = trim_bounds(&v);
    let ghost t = trimmed(text@);
    assert(v@.subrange(a as int, b as int) == t);
    let word = chars_of(string_of(&v, a, b).as_str());
    assert(word@ == t);
    if !bytes_at_least(&word, 2) {
        return false;
    }
    if word.len() == 0 {
        return false;
    }
    let mut marked: bool = false;
    let mut i: usize = 0;
    while i < word.len()
        invariant
            word@ == t,
            t == trimmed(text@),
            i <= word@.len(),
            forall|j: int| 0 <= j < i ==> alphanumeric(#[trigger] t[j]) || t[j] == '_',
            marked == exists|j: int|
                0 <= j < i && (#[trigger] t[j] == '_' || ascii_digit(t[j])),
        decreases word@.len() - i,
    {
        let c: char = word[i];
        if !(c.is_alphanumeric() || c == '_') {
            assert(!(alphanumeric(t[i as int]) || t[i as int] == '_'));
            return false;
        }
        if c == '_' || ('0' <= c && c <= '9') {
            assert(t[i as int] == '_' || ascii_digit(t[i as int]));
            marked = true;
        }
        i = i + 1;
    }
    marked || word[0].is_uppercase()
}

// ---------------------------------------------------------------------------------------------
// Laws
// ---------------------------------------------------------------------------------------------

/// The states of the firing decision along a run of tokens that each follow from the one before.
pub open spec fn quiet_run(states: Seq<Firing>, fired: Seq<bool>) -> bool {
    &&& states.len() == fired.len() + 1
    &&& forall|i: int|
        0 <= i < fired.len() ==> #[trigger] fired[i] ==> states[i].refractory == 0
    &&& forall|i: int|
        0 <= i < fired.len() ==> states[i + 1] == states[i].after(
            #[trigger] fired[i],
            states[i + 1].fire_rng,
        )
}

/// After a fire exactly the next `period` tokens are in the cooldown: none of them fires, and the
/// token after them finds the cooldown over.
pub proof fn lemma_refractory_blocks_exactly_the_period(
    start: Firing,
    rng: u64,
    states: Seq<Firing>,
    fired: Seq<bool>,
)
    requires
        quiet_run(states, fired),
        states[0] == start.after(true, rng),
        fired.len() >= start.period,
    ensures
        forall|i: int| 0 <= i < start.period ==> !(#[trigger] fired[i]),
        states[start.period as int].refractory == 0,
{
    lemma_cooldown(start, rng, states, fired, start.period as int);
}

proof fn lemma_cooldown(start: Firing, rng: u64, states: Seq<Firing>, fired: Seq<bool>, n: int)
    requires
        quiet_run(states, fired),
        states[0] == start.after(true, rng),
        0 <= n <= start.period <= fired.len(),
    ensures
        forall|i: int| 0 <= i < n ==> !(#[trigger] fired[i]),
        states[n].refractory == start.period - n,
    decreases n,
{
    if n > 0 {
        lemma_cooldown(start, rng, states, fired, n - 1);
        assert(fired[n - 1] ==> states[n - 1].refractory == 0);
        assert(states[n] == states[n - 1].after(fired[n - 1], states[n].fire_rng));
    }
}

/// The random stream moves only where every gate stands open and the threshold is soft; then it moves
/// by one draw.
pub proof fn lemma_draws_only_behind_open_gates<N: Numerics>(
    num: &N,
    f: Firing,
    text: Seq<char>,
    z: F32,
    z_threshold: F32,
    warm: bool,
    suppressed: bool,
    next: Firing,
    fired: bool,
)
    requires
        f.decided(num, text, z, z_threshold, warm, suppressed, next, fired),
    ensures
        next.fire_rng == if f.open_for(text, warm, suppressed) && !f.softness.at_most(
            F32(ZERO_BITS),
        ) {
            stirred(f.fire_rng)
        } else {
            f.fire_rng
        },
{
}

/// A run of tokens, none of which found every gate open: what each was decided on, and what came of it.
pub open spec fn shut_run<N: Numerics>(
    num: &N,
    states: Seq<Firing>,
    texts: Seq<Seq<char>>,
    zs: Seq<F32>,
    z_threshold: F32,
    warm: Seq<bool>,
    suppressed: Seq<bool>,
    fired: Seq<bool>,
) -> bool {
    &&& states.len() == fired.len() + 1
    &&& forall|i: int|
        0 <= i < fired.len() ==> {
            &&& !(#[trigger] states[i]).open_for(texts[i], warm[i], suppressed[i])
            &&& states[i].decided(
                num,
                texts[i],
                zs[i],
                z_threshold,
                warm[i],
                suppressed[i],
                states[i + 1],
                fired[i],
            )
        }
}

/// Tokens that find a gate shut leave no trace in the random stream: none of them fires, and whatever
/// is measured after them falls out as if they had not been there.
pub proof fn lemma_shut_gates_leave_later_draws_equal<N: Numerics>(
    num: &N,
    states: Seq<Firing>,
    texts: Seq<Seq<char>>,
    zs: Seq<F32>,
    z_threshold: F32,
    warm: Seq<bool>,
    suppressed: Seq<bool>,
    fired: Seq<bool>,
)
    requires
        shut_run(num, states, texts, zs, z_threshold, warm, suppressed, fired),
    ensures
        forall|i: int| 0 <= i < fired.len() ==> !(#[trigger] fired[i]),
        states.last().fire_rng == states[0].fire_rng,
        forall|z: F32, rng: u64, r: bool| #[trigger]
            states.last().crossed(num, z, z_threshold, rng, r) == states[0].crossed(
                num,
                z,
                z_threshold,
                rng,
                r,
            ),
{
    lemma_shut(num, states, texts, zs, z_threshold, warm, suppressed, fired, fired.len() as int);
}

proof fn lemma_shut<N: Numerics>(
    num: &N,
    states: Seq<Firing>,
    texts: Seq<Seq<char>>,
    zs: Seq<F32>,
    z_threshold: F32,
    warm: Seq<bool>,
    suppressed: Seq<bool>,
    fired: Seq<bool>,
    n: int,
)
    requires
        shut_run(num, states, texts, zs, z_threshold, warm, suppressed, fired),
        0 <= n <= fired.len(),
    ensures
        forall|i: int| 0 <= i < n ==> !(#[trigger] fired[i]),
        states[n].fire_rng == states[0].fire_rng,
        states[n].softness == states[0].softness,
    decreases n,
{
    if n > 0 {
        lemma_shut(num, states, texts, zs, z_threshold, warm, suppressed, fired, n - 1);
        assert(!states[n - 1].open_for(texts[n - 1], warm[n - 1], suppressed[n - 1]));
    }
}

/// With a hard threshold the decision is a function of the inputs: a token fires if and only if every
/// gate stands open and its z-score reaches the threshold.
pub proof fn lemma_hard_threshold<N: Numerics>(
    num: &N,
    f: Firing,
    text: Seq<char>,
    z: F32,
    z_threshold: F32,
    warm: bool,
    suppressed: bool,
    next: Firing,
    fired: bool,
)
    requires
        f.decided(num, text, z, z_threshold, warm, suppressed, next, fired),
        f.softness.at_most(F32(ZERO_BITS)),
    ensures
        fired == (f.open_for(text, warm, suppressed) && z_threshold.at_most(z)),
        next == f.after(fired, f.fire_rng),
{
}

/// A higher z-score fires wherever a lower one does, from the same state and under a hard threshold.
pub proof fn lemma_firing_is_monotone_in_z<N: Numerics>(
    num: &N,
    f: Firing,
    text: Seq<char>,
    low: F32,
    high: F32,
    z_threshold: F32,
    warm: bool,
    suppressed: bool,
    next_low: Firing,
    next_high: Firing,
    fired_low: bool,
    fired_high: bool,
)
    requires
        f.softness.at_most(F32(ZERO_BITS)),
        low.at_most(high),
        f.decided(num, text, low, z_threshold, warm, suppressed, next_low, fired_low),
        f.decided(num, text, high, z_threshold, warm, suppressed, next_high, fired_high),
    ensures
        fired_low ==> fired_high,
{
}

} // verus!
