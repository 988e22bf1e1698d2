//! The tick driver: a fixed-rate clock that can be paused, and the work of one tick.
use vstd::prelude::*;
use crate::circuit::Circuit;
use crate::model::{CircuitModel, index_consistent, settle, wf};

verus! {

/// Tick period at start-up, in milliseconds (half a tick per second).
pub const DEFAULT_PERIOD_MS: u64 = 2000;

/// A fixed-rate clock. Time only accumulates while it runs.
pub struct TickDriver {
    period_ms: u64,
    paused: bool,
    elapsed_ms: u64,
}

impl TickDriver {
    pub closed spec fn period(&self) -> nat {
        self.period_ms as nat
    }

    pub closed spec fn is_paused(&self) -> bool {
        self.paused
    }

    /// Time since the last tick, in milliseconds.
    pub closed spec fn pending(&self) -> nat {
        self.elapsed_ms as nat
    }

    pub open spec fn inv(&self) -> bool {
        self.period() > 0 && self.pending() < self.period()
    }

    /// A paused clock at the default rate.
    pub fn new() -> (r: TickDriver)
        ensures
            r.inv(),
            r.period() == DEFAULT_PERIOD_MS,
            r.is_paused(),
            r.pending() == 0,
    {
        TickDriver { period_ms: DEFAULT_PERIOD_MS, paused: true, elapsed_ms: 0 }
    }

    pub fn paused(&self) -> (r: bool)
        ensures
            r == self.is_paused(),
    {
        self.paused
    }

    pub fn period_ms(&self) -> (r: u64)
        ensures
            r == self.period(),
    {
        self.period_ms
    }

    pub fn pause(&mut self)
        ensures
            final(self).is_paused(),
            final(self).period() == old(self).period(),
            final(self).pending() == old(self).pending(),
    {
        self.paused = true;
    }

    pub fn resume(&mut self)
        ensures
            !final(self).is_paused(),
            final(self).period() == old(self).period(),
            final(self).pending() == old(self).pending(),
    {
        self.paused = false;
    }

    /// Changes the period. Allowed only while paused and for a non-zero period; tells
    /// whether the change was made. Time already accumulated is dropped.
    pub fn set_period_ms(&mut self, period_ms: u64) -> (ok: bool)
        ensures
            ok == (old(self).is_paused() && period_ms > 0),
            ok ==> final(self).period() == period_ms && final(self).pending() == 0,
            !ok ==> *final(self) == *old(self),
            final(self).is_paused() == old(self).is_paused(),
    {
        if self.paused && period_ms > 0 {
            self.period_ms = period_ms;
            self.elapsed_ms = 0;
            true
        } else {
            false
        }
    }

    /// Lets `dt_ms` milliseconds pass and returns how many ticks fell due. A paused clock
    /// lets no time pass.
    pub fn advance(&mut self, dt_ms: u64) -> (ticks: u64)
        requires
            old(self).inv(),
        ensures
            final(self).inv(),
            final(self).period() == old(self).period(),
            final(self).is_paused() == old(self).is_paused(),
            old(self).is_paused() ==> ticks == 0 && final(self).pending() == old(self).pending(),
            !old(self).is_paused() ==> ticks * old(self).period() + final(self).pending()
                == old(self).pending() + dt_ms,
    {
        if self.paused {
            return 0;
        }
        let p = self.period_ms;
        let e = self.elapsed_ms;
        // e < p, so the sum is split before it could overflow
        let ticks = dt_ms / p;
        let rest = dt_ms % p;
        let room = p - e;
        if rest >= room {
            assert(p >= 2);
            assert(dt_ms / p <= dt_ms / 2) by (nonlinear_arith)
                requires p >= 2;
        }
        let (ticks, left) = if rest >= room { (ticks + 1, rest - room) } else { (ticks, e + rest) };
        assert(dt_ms == (dt_ms / p) * p + dt_ms % p) by (nonlinear_arith)
            requires p > 0;
        assert((dt_ms / p) * p <= dt_ms) by (nonlinear_arith)
            requires p > 0, dt_ms == (dt_ms / p) * p + dt_ms % p, dt_ms % p >= 0;
        assert(ticks * p == (dt_ms / p) * p + (if rest >= room { p as int } else { 0 })) by (nonlinear_arith)
            requires ticks == (dt_ms / p) + (if rest >= room { 1int } else { 0 });
        self.elapsed_ms = left;
        ticks
    }
}

impl Circuit {
    /// The work of one tick: bring the output index up to date, then run one settling pass.
    /// Returns the number of iterations of the pass.
    pub fn tick(&mut self) -> (iterations: usize)
        requires
            wf(old(self)@),
        ensures
            wf(final(self)@),
            iterations <= old(self)@.kinds.len() + 1,
            index_consistent(final(self)@),
            exists|r: CircuitModel| {
                &&& index_consistent(r)
                &&& r == (CircuitModel { consumers: r.consumers, last_inputs: old(self)@.inputs, ..old(self)@ })
                &&& (final(self)@, iterations as nat) == settle(r)
            },
    {
        self.rebuild_index();
        let ghost r = self@;
        let it = self.settle();
        assert(index_consistent(self@));
        it
    }
}

} // verus!
