//! Counting attempts: a local count that reaches the shared one in lumps.
use std::sync::atomic::{AtomicU64, Ordering};
use vstd::prelude::*;
use vstd::arithmetic::div_mod::lemma_fundamental_div_mod;

verus! {

/// How many attempts a worker keeps to itself at most.
pub const GLOBAL_TRY_FLUSH: u64 = 8_192;

/// Whether a read of the shared counter can give `value`.
pub open spec fn counter_reads(counter: &AtomicU64, value: u64) -> bool {
    call_ensures(AtomicU64::load, (counter, Ordering::Relaxed), value)
}

/// Whether adding `lump` to the shared counter, which held `before`, has
/// returned.
pub open spec fn counter_added(counter: &AtomicU64, lump: u64, before: u64) -> bool {
    call_ensures(AtomicU64::fetch_add, (counter, lump, Ordering::Relaxed), before)
}

/// Whether handing `pending` to the shared counter can give `after`. With
/// nothing pending the counter is only read. The counter wraps at its end.
pub open spec fn handed_over(counter: &AtomicU64, pending: u64, after: u64) -> bool {
    if pending == 0 {
        counter_reads(counter, after)
    } else {
        exists|before: u64| #[trigger]
            counter_added(counter, pending, before) && after == (before + pending)
                % 0x1_0000_0000_0000_0000
    }
}

/// Adds what is pending to the shared counter and returns the counter after
/// it. With nothing pending the counter is only read. The counter wraps at its
/// end.
pub fn flush_global_tries(counter: &AtomicU64, pending: &mut u64) -> (r: u64)
    ensures
        *final(pending) == 0,
        handed_over(counter, *old(pending), r),
{
    if *pending == 0 {
        counter.load(Ordering::Relaxed)
    } else {
        let lump: u64 = *pending;
        let before: u64 = counter.fetch_add(lump, Ordering::Relaxed);
        *pending = 0;
        assert(counter_added(counter, lump, before));
        counter_after(before, lump)
    }
}

/// What a counter holds once `lump` was added to `before`.
pub fn counter_after(before: u64, lump: u64) -> (r: u64)
    ensures
        r == (before + lump) % 0x1_0000_0000_0000_0000,
{
    before.wrapping_add(lump)
}

/// The sum of a row of lumps.
pub open spec fn lump_sum(lumps: Seq<u64>) -> nat
    decreases lumps.len(),
{
    if lumps.len() == 0 {
        0
    } else {
        lump_sum(lumps.drop_last()) + lumps.last() as nat
    }
}

/// Whether adding `lump` to the shared counter has returned.
pub open spec fn lump_added(counter: &AtomicU64, lump: u64) -> bool {
    exists|before: u64| #[trigger] counter_added(counter, lump, before)
}

/// Whether every lump was added to the shared counter.
pub open spec fn all_added(counter: &AtomicU64, lumps: Seq<u64>) -> bool {
    forall|i: int| 0 <= i < lumps.len() ==> lump_added(counter, #[trigger] lumps[i])
}

/// A worker's attempts on their way to the shared counter. Every lump that was
/// added to the counter is kept in mind.
pub struct TryCounter<'a> {
    global: &'a AtomicU64,
    pending: u64,
    lumps: Ghost<Seq<u64>>,
}

impl<'a> TryCounter<'a> {
    #[verifier::type_invariant]
    spec fn wf(self) -> bool {
        &&& self.pending < GLOBAL_TRY_FLUSH
        &&& all_added(self.global, self.lumps@)
    }

    /// The shared counter.
    pub closed spec fn global(&self) -> &'a AtomicU64 {
        self.global
    }

    /// The attempts not yet handed over.
    pub closed spec fn pending(&self) -> nat {
        self.pending as nat
    }

    /// The lumps that were added to the shared counter so far, in order.
    pub closed spec fn lumps(&self) -> Seq<u64> {
        self.lumps@
    }

    /// The attempts handed to the shared counter so far.
    pub open spec fn flushed(&self) -> nat {
        lump_sum(self.lumps())
    }

    /// The attempts recorded so far, handed over or not.
    pub open spec fn recorded(&self) -> nat {
        self.flushed() + self.pending()
    }

    /// A counter with nothing recorded.
    pub fn new(global: &'a AtomicU64) -> (r: TryCounter<'a>)
        ensures
            r.global() == global,
            r.pending() == 0,
            r.lumps().len() == 0,
    {
        TryCounter { global, pending: 0, lumps: Ghost(Seq::empty()) }
    }

    /// Adds a lump to the shared counter and returns the counter after it.
    fn add_lump(&mut self, lump: u64) -> (r: u64)
        requires
            lump > 0,
        ensures
            final(self).global() == old(self).global(),
            final(self).pending() == 0,
            handed_over(old(self).global(), lump, r),
            final(self).lumps() == old(self).lumps().push(lump),
            final(self).flushed() == old(self).flushed() + lump,
    {
        proof {
            use_type_invariant(&*self);
        }
        let ghost lumps = self.lumps@;
        let mut pending: u64 = lump;
        let total: u64 = flush_global_tries(self.global, &mut pending);
        proof {
            let longer = lumps.push(lump);
            assert(longer.drop_last() =~= lumps);
            assert(lump_added(self.global, lump));
            assert forall|i: int| 0 <= i < longer.len() implies lump_added(
                self.global,
                #[trigger] longer[i],
            ) by {
                if i < lumps.len() {
                    assert(longer[i] == lumps[i]);
                }
            }
        }
        *self = TryCounter { global: self.global, pending, lumps: Ghost(lumps.push(lump)) };
        total
    }

    /// Hands everything over and returns the shared counter after it.
    pub fn flush(&mut self) -> (r: u64)
        ensures
            final(self).global() == old(self).global(),
            final(self).pending() == 0,
            handed_over(old(self).global(), old(self).pending() as u64, r),
            final(self).lumps() == (if old(self).pending() == 0 {
                old(self).lumps()
            } else {
                old(self).lumps().push(old(self).pending() as u64)
            }),
            final(self).recorded() == old(self).recorded(),
            all_added(final(self).global(), final(self).lumps()),
    {
        let lump: u64 = self.pending;
        let total: u64 = if lump == 0 {
            let mut nothing: u64 = 0;
            flush_global_tries(self.global, &mut nothing)
        } else {
            self.add_lump(lump)
        };
        proof {
            use_type_invariant(&*self);
        }
        total
    }

    /// Records finished attempts, and hands over once enough are pending.
    pub fn record(&mut self, count: u64)
        requires
            count <= u64::MAX - GLOBAL_TRY_FLUSH,
        ensures
            final(self).global() == old(self).global(),
            final(self).recorded() == old(self).recorded() + count,
            old(self).pending() + count >= GLOBAL_TRY_FLUSH ==> final(self).pending() == 0
                && final(self).lumps() == old(self).lumps().push(
                (old(self).pending() + count) as u64,
            ),
            old(self).pending() + count < GLOBAL_TRY_FLUSH ==> final(self).lumps() == old(
                self,
            ).lumps(),
    {
        proof {
            use_type_invariant(&*self);
        }
        let sum: u64 = self.pending + count;
        if sum >= GLOBAL_TRY_FLUSH {
            self.add_lump(sum);
        } else {
            self.pending = sum;
        }
    }
}

/// Whether a multiple of `every` lies above `previous` and not above
/// `completed`. Zero turns reports off.
pub fn crossed_report_threshold(previous: u64, completed: u64, every: u64) -> (r: bool)
    ensures
        r == (every != 0 && previous / every < completed / every),
{
    every != 0 && previous / every < completed / every
}

/// A report is due exactly when a multiple of `every` was passed.
pub proof fn law_report_when_multiple_passed(previous: u64, completed: u64, every: u64)
    requires
        every != 0,
    ensures
        previous / every < completed / every <==> exists|k: int|
            previous < #[trigger] (k * every) <= completed,
{
    let q = (previous / every) as int;
    let c = (completed / every) as int;
    lemma_fundamental_div_mod(previous as int, every as int);
    lemma_fundamental_div_mod(completed as int, every as int);
    if q < c {
        assert(c * every <= completed) by (nonlinear_arith)
            requires
                completed == every * c + completed % every,
        ;
        assert(c * every > previous) by (nonlinear_arith)
            requires
                previous == every * q + previous % every,
                previous % every < every,
                q + 1 <= c,
        ;
        assert(previous < c * every <= completed);
    }
    if exists|k: int| previous < #[trigger] (k * every) <= completed {
        let k = choose|k: int| previous < #[trigger] (k * every) <= completed;
        if c <= q {
            assert(k * every <= previous || k * every > completed) by (nonlinear_arith)
                requires
                    c <= q,
                    every > 0,
                    previous == every * q + previous % every,
                    completed == every * c + completed % every,
                    previous % every >= 0,
                    completed % every < every,
            ;
        }
    }
}

}
