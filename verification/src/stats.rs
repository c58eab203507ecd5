//! The running baseline that a signal is measured against.
//!
//! What surprises a small model varies from stream to stream, so a raw value is never compared with
//! a threshold: its z-score against this baseline is. The global baseline weighs the whole stream
//! alike; the adaptive one weighs about the last `window` values and gets used to a texture that
//! lasts. The moments themselves are computed by [`Numerics`].

use crate::number::{F32, ZERO_BITS};
use crate::numerics::Numerics;
use vstd::prelude::*;

verus! {

/// The baseline: how many values it has taken in, and their moments.
#[derive(Copy, Clone, Debug, PartialEq, Eq, Structural)]
pub struct Welford {
    pub count: u64,
    pub mean: F32,
    /// Sum of squared deviations; moves in the global mode only.
    pub m2: F32,
    /// Exponentially weighted variance; moves in the adaptive mode only.
    pub var_ewma: F32,
    /// How many values must have been taken in before anything fires.
    pub warmup: u64,
    /// The effective window of the adaptive mode; 0 is the global mode.
    pub window: usize,
}

impl Welford {
    /// An empty baseline. `adapt_window == 0` is the global mode, anything else the adaptive one.
    pub fn new(warmup: u64, adapt_window: usize) -> (w: Self)
        ensures
            w == (Welford {
                count: 0,
                mean: F32(ZERO_BITS),
                m2: F32(ZERO_BITS),
                var_ewma: F32(ZERO_BITS),
                warmup,
                window: adapt_window,
            }),
    {
        Welford {
            count: 0,
            mean: F32(ZERO_BITS),
            m2: F32(ZERO_BITS),
            var_ewma: F32(ZERO_BITS),
            warmup,
            window: adapt_window,
        }
    }

    /// The baseline after one more value, whose mean and spread are `moments`: the spread is that of
    /// the mode, and the other one stays.
    pub open spec fn taken(self, moments: (F32, F32)) -> Welford {
        Welford {
            count: (self.count + 1) as u64,
            mean: moments.0,
            m2: if self.window == 0 {
                moments.1
            } else {
                self.m2
            },
            var_ewma: if self.window == 0 {
                self.var_ewma
            } else {
                moments.1
            },
            ..self
        }
    }

    /// Take in the value whose addition gives these moments.
    pub fn take_in(&mut self, moments: (F32, F32))
        requires
            old(self).count < u64::MAX,
        ensures
            *final(self) == old(self).taken(moments),
    {
        self.count = self.count + 1;
        self.mean = moments.0;
        if self.window == 0 {
            self.m2 = moments.1;
        } else {
            self.var_ewma = moments.1;
        }
    }

    /// Take in a value.
    pub fn update<N: Numerics>(&mut self, x: F32, num: &N)
        requires
            old(self).count < u64::MAX,
        ensures
            exists|m: (F32, F32)| #[trigger]
                call_ensures(N::moments, (num, old(self), x), m) && *final(self) == old(
                    self,
                ).taken(m),
    {
        let m = num.moments(self, x);
        assert(call_ensures(N::moments, (num, old(self), x), m));
        self.take_in(m);
    }

    /// How many values the baseline has taken in.
    pub fn count(&self) -> (n: u64)
        ensures
            n == self.count,
    {
        self.count
    }

    /// How many values must have been taken in before anything fires.
    pub fn warmup(&self) -> (n: u64)
        ensures
            n == self.warmup,
    {
        self.warmup
    }

    /// The mean.
    pub fn mean(&self) -> (m: F32)
        ensures
            m == self.mean,
    {
        self.mean
    }

    /// Has the baseline taken in more than its warm-up?
    pub open spec fn is_warm(self) -> bool {
        self.count > self.warmup
    }

    /// Has the baseline taken in more than its warm-up?
    pub fn warm(&self) -> (r: bool)
        ensures
            r == self.is_warm(),
            r == (self.count > self.warmup),
    {
        self.count > self.warmup
    }
}

/// Once warm, always warm.
pub proof fn lemma_warm_stays(w: Welford, moments: (F32, F32))
    requires
        w.is_warm(),
        w.count < u64::MAX,
    ensures
        w.taken(moments).is_warm(),
{
}

/// A value that is taken in counts once, whatever it is; the mean is the new one, and of the two spreads
/// the one of the mode: the global one where there is no window, else the adaptive one. The warm-up and
/// the window stay what they were.
pub proof fn lemma_a_value_counts_once(w: Welford, moments: (F32, F32))
    requires
        w.count < u64::MAX,
    ensures
        ({
            let t = w.taken(moments);
            &&& t.count == w.count + 1
            &&& t.mean == moments.0
            &&& t.warmup == w.warmup
            &&& t.window == w.window
            &&& w.window == 0 ==> t.m2 == moments.1 && t.var_ewma == w.var_ewma
            &&& w.window > 0 ==> t.m2 == w.m2 && t.var_ewma == moments.1
            &&& t.is_warm() <==> w.count + 1 > w.warmup
        }),
{
}

/// A value that is taken in counts once and moves the mean and the spread as the arithmetic says; the spread
/// of the other mode, the warm-up and the window stay. A new baseline has taken in nothing.
pub proof fn lemma_what_taking_in_a_value_does<N: Numerics>(
    w: &mut Welford,
    x: F32,
    num: &N,
    u: (),
    warmup: u64,
    window: usize,
    fresh: Welford,
)
    requires
        old(w).count < u64::MAX,
        call_ensures(Welford::update::<N>, (w, x, num), u),
        call_ensures(Welford::new, (warmup, window), fresh),
    ensures
        final(w).count == old(w).count + 1,
        final(w).warmup == old(w).warmup,
        final(w).window == old(w).window,
        exists|m: (F32, F32)|
            {
                &&& #[trigger] call_ensures(N::moments, (num, &*old(w), x), m)
                &&& final(w).mean == m.0
                &&& old(w).window == 0 ==> final(w).m2 == m.1 && final(w).var_ewma == old(w).var_ewma
                &&& old(w).window > 0 ==> final(w).var_ewma == m.1 && final(w).m2 == old(w).m2
            },
        fresh.count == 0,
        fresh.mean == F32(0),
        fresh.m2 == F32(0),
        fresh.var_ewma == F32(0),
        fresh.warmup == warmup,
        fresh.window == window,
{
    let m = choose|m: (F32, F32)| #[trigger]
        call_ensures(N::moments, (num, &*old(w), x), m) && *final(w) == old(w).taken(m);
    assert(call_ensures(N::moments, (num, &*old(w), x), m));
}

} // verus!
