//! A fixed-memory rolling event-rate counter (ring of per-second buckets). Used for
//! host-wide rate signals (RST storms, connection churn).

use vstd::prelude::*;

use crate::number::Ratio;

verus! {

pub const NS_PER_SEC: u64 = 1_000_000_000;

/// The most seconds that a count of nanoseconds can hold.
pub const MAX_SECS: u64 = 18_446_744_073;

/// The second since the epoch in which a nanosecond timestamp falls.
pub open spec fn second_of(now_ns: u64) -> nat {
    (now_ns / NS_PER_SEC) as nat
}

/// What a counter remembers: its window, and how many events it holds for each second.
#[verifier::ext_equal]
pub ghost struct RateView {
    pub window: nat,
    pub held: spec_fn(nat) -> nat,
}

/// The number of events held for the `n` seconds that start at `from`.
pub open spec fn held_sum(held: spec_fn(nat) -> nat, from: nat, n: nat) -> nat
    decreases n,
{
    if n == 0 {
        0
    } else {
        held_sum(held, from, (n - 1) as nat) + held((from + n - 1) as nat)
    }
}

impl RateView {
    /// A counter that has seen nothing.
    pub open spec fn empty(window: nat) -> RateView {
        RateView { window, held: |sec: nat| 0nat }
    }

    /// The counter after one event: its second gains one, and every other second that
    /// shares its bucket is forgotten.
    pub open spec fn recorded(self, now_ns: u64) -> RateView {
        let s = second_of(now_ns);
        RateView {
            window: self.window,
            held: |sec: nat|
                if sec == s {
                    (self.held)(sec) + 1
                } else if sec % self.window == s % self.window {
                    0
                } else {
                    (self.held)(sec)
                },
        }
    }

    /// The first second of the window that ends at `now_ns`.
    pub open spec fn window_start(self, now_ns: u64) -> nat {
        if second_of(now_ns) + 1 >= self.window {
            (second_of(now_ns) + 1 - self.window) as nat
        } else {
            0
        }
    }

    /// The events held for the last `window` seconds, ending at `now_ns`.
    pub open spec fn count(self, now_ns: u64) -> nat {
        let from = self.window_start(now_ns);
        held_sum(self.held, from, (second_of(now_ns) + 1 - from) as nat)
    }

    /// Average events per second over the window.
    pub open spec fn rate(self, now_ns: u64) -> Ratio {
        Ratio::of(self.count(now_ns) as u64, self.window as u64)
    }
}

/// A counter that has recorded the events of `times`, oldest first.
pub open spec fn recorded_all(window: nat, times: Seq<u64>) -> RateView
    decreases times.len(),
{
    if times.len() == 0 {
        RateView::empty(window)
    } else {
        recorded_all(window, times.drop_last()).recorded(times.last())
    }
}

/// How many of `times` fall in the seconds from `from` up to `to`, both included.
pub open spec fn events_between(times: Seq<u64>, from: nat, to: nat) -> nat
    decreases times.len(),
{
    if times.len() == 0 {
        0
    } else {
        events_between(times.drop_last(), from, to) + (if from <= second_of(times.last()) <= to {
            1nat
        } else {
            0nat
        })
    }
}

/// For events that arrive in the order of their timestamps, a counter's total is the
/// number of events in the last `window` seconds.
pub proof fn law_count_is_events_in_window(window: nat, times: Seq<u64>, now_ns: u64)
    requires
        window >= 1,
        forall|i: int, j: int| 0 <= i <= j < times.len() ==> times[i] <= times[j],
        times.len() > 0 ==> times.last() <= now_ns,
    ensures
        ({
            let rate = recorded_all(window, times);
            rate.count(now_ns) == events_between(
                times,
                rate.window_start(now_ns),
                second_of(now_ns),
            )
        }),
{
    let rate = recorded_all(window, times);
    lemma_window_kept(window, times);
    let from = rate.window_start(now_ns);
    lemma_held_is_events(window, times, now_ns, from, (second_of(now_ns) + 1 - from) as nat);
}

/// Recording one event adds one to the count of the window that ends with it.
pub proof fn law_record_adds_one(rate: RateView, now_ns: u64)
    requires
        rate.window >= 1,
    ensures
        rate.recorded(now_ns).count(now_ns) == rate.count(now_ns) + 1,
{
    let s = second_of(now_ns);
    let from = rate.window_start(now_ns);
    lemma_held_unchanged(rate, now_ns, from, (s - from) as nat);
}

proof fn lemma_held_unchanged(rate: RateView, now_ns: u64, from: nat, n: nat)
    requires
        rate.window >= 1,
        second_of(now_ns) < from + rate.window,
        from + n <= second_of(now_ns),
    ensures
        held_sum(rate.recorded(now_ns).held, from, n) == held_sum(rate.held, from, n),
    decreases n,
{
    if n > 0 {
        lemma_held_unchanged(rate, now_ns, from, (n - 1) as nat);
        let sec = (from + n - 1) as nat;
        if sec % rate.window == second_of(now_ns) % rate.window {
            lemma_same_bucket_apart(sec, second_of(now_ns), rate.window);
        }
    }
}

proof fn lemma_window_kept(window: nat, times: Seq<u64>)
    ensures
        recorded_all(window, times).window == window,
    decreases times.len(),
{
    if times.len() > 0 {
        lemma_window_kept(window, times.drop_last());
    }
}

/// Every second of the window still has all of its events.
proof fn lemma_held_exact(window: nat, times: Seq<u64>, latest: nat, sec: nat)
    requires
        window >= 1,
        forall|i: int, j: int| 0 <= i <= j < times.len() ==> times[i] <= times[j],
        times.len() > 0 ==> second_of(times.last()) <= latest,
        latest < sec + window,
        sec <= latest,
    ensures
        (recorded_all(window, times).held)(sec) == events_between(times, sec, sec),
    decreases times.len(),
{
    if times.len() > 0 {
        let rest = times.drop_last();
        let s = second_of(times.last());
        lemma_window_kept(window, rest);
        if rest.len() > 0 {
            assert(rest.last() == times[times.len() - 2]);
            assert(second_of(rest.last()) <= s) by {
                assert(times[times.len() - 2] <= times[times.len() - 1]);
            }
        }
        lemma_held_exact(window, rest, latest, sec);
        if sec != s && sec % window == s % window {
            lemma_same_bucket_apart(sec, s, window);
            // The two seconds are a whole window apart, so `sec` is later than every event.
            assert(s + window <= sec);
            lemma_no_events(rest, sec);
        }
    }
}

/// Different seconds of one bucket are at least a window apart.
proof fn lemma_same_bucket_apart(a: nat, b: nat, window: nat)
    requires
        window >= 1,
        a != b,
        a % window == b % window,
    ensures
        a + window <= b || b + window <= a,
{
    vstd::arithmetic::div_mod::lemma_fundamental_div_mod(a as int, window as int);
    vstd::arithmetic::div_mod::lemma_fundamental_div_mod(b as int, window as int);
    let qa = a as int / window as int;
    let qb = b as int / window as int;
    if qa < qb {
        assert(window * (qa + 1) <= window * qb) by (nonlinear_arith)
            requires
                qa + 1 <= qb,
                window >= 1,
        ;
        assert(window * (qa + 1) == window * qa + window) by (nonlinear_arith);
    } else if qb < qa {
        assert(window * (qb + 1) <= window * qa) by (nonlinear_arith)
            requires
                qb + 1 <= qa,
                window >= 1,
        ;
        assert(window * (qb + 1) == window * qb + window) by (nonlinear_arith);
    }
}

proof fn lemma_no_events(times: Seq<u64>, sec: nat)
    requires
        forall|i: int, j: int| 0 <= i <= j < times.len() ==> times[i] <= times[j],
        times.len() > 0 ==> second_of(times.last()) < sec,
    ensures
        events_between(times, sec, sec) == 0,
    decreases times.len(),
{
    if times.len() > 0 {
        let rest = times.drop_last();
        if rest.len() > 0 {
            assert(rest.last() == times[times.len() - 2]);
            assert(times[times.len() - 2] <= times[times.len() - 1]);
        }
        lemma_no_events(rest, sec);
    }
}

proof fn lemma_events_split(times: Seq<u64>, from: nat, to: nat)
    requires
        from <= to,
    ensures
        events_between(times, from, to + 1) == events_between(times, from, to) + events_between(
            times,
            to + 1,
            to + 1,
        ),
    decreases times.len(),
{
    if times.len() > 0 {
        lemma_events_split(times.drop_last(), from, to);
    }
}

proof fn lemma_held_is_events(window: nat, times: Seq<u64>, now_ns: u64, from: nat, n: nat)
    requires
        window >= 1,
        forall|i: int, j: int| 0 <= i <= j < times.len() ==> times[i] <= times[j],
        times.len() > 0 ==> times.last() <= now_ns,
        n >= 1,
        second_of(now_ns) < from + window,
        from + n <= second_of(now_ns) + 1,
    ensures
        held_sum(recorded_all(window, times).held, from, n) == events_between(
            times,
            from,
            (from + n - 1) as nat,
        ),
    decreases n,
{
    let held = recorded_all(window, times).held;
    let last = (from + n - 1) as nat;
    if times.len() > 0 {
        assert(second_of(times.last()) <= second_of(now_ns));
    }
    lemma_held_exact(window, times, second_of(now_ns), last);
    if n == 1 {
        assert(held_sum(held, from, 0) == 0);
    } else {
        lemma_held_is_events(window, times, now_ns, from, (n - 1) as nat);
        lemma_events_split(times, from, (last - 1) as nat);
    }
}

/// The sum of all buckets.
spec fn bucket_sum(buckets: Seq<u64>) -> nat
    decreases buckets.len(),
{
    if buckets.len() == 0 {
        0
    } else {
        bucket_sum(buckets.drop_last()) + buckets.last() as nat
    }
}

/// The sum of `n` buckets along the ring, the first being that of second `from`.
spec fn ring_sum(buckets: Seq<u64>, from: nat, n: nat) -> nat
    decreases n,
{
    if n == 0 {
        0
    } else {
        ring_sum(buckets, from, (n - 1) as nat) + buckets[((from + n - 1) as nat % buckets.len())
            as int] as nat
    }
}

proof fn lemma_ring_from_zero(buckets: Seq<u64>, n: nat)
    requires
        n <= buckets.len(),
    ensures
        ring_sum(buckets, 0, n) == bucket_sum(buckets.take(n as int)),
    decreases n,
{
    if n > 0 {
        lemma_ring_from_zero(buckets, (n - 1) as nat);
        assert(buckets.take(n as int).drop_last() =~= buckets.take(n - 1));
        vstd::arithmetic::div_mod::lemma_small_mod((n - 1) as nat, buckets.len());
    }
}

proof fn lemma_ring_shift(buckets: Seq<u64>, from: nat, n: nat)
    requires
        buckets.len() > 0,
    ensures
        ring_sum(buckets, from, n + 1) == buckets[(from % buckets.len()) as int] as nat + ring_sum(
            buckets,
            from + 1,
            n,
        ),
    decreases n,
{
    if n == 0 {
        assert(ring_sum(buckets, from, 0) == 0);
        assert(ring_sum(buckets, from + 1, 0) == 0);
    } else {
        lemma_ring_shift(buckets, from, (n - 1) as nat);
        assert((from + (n + 1) - 1) as nat == (from + 1 + n - 1) as nat);
    }
}

proof fn lemma_ring_whole(buckets: Seq<u64>, from: nat)
    requires
        buckets.len() > 0,
    ensures
        ring_sum(buckets, from, buckets.len()) == bucket_sum(buckets),
    decreases from,
{
    let w = buckets.len();
    if from == 0 {
        lemma_ring_from_zero(buckets, w);
        assert(buckets.take(w as int) =~= buckets);
    } else {
        let prev = (from - 1) as nat;
        lemma_ring_whole(buckets, prev);
        lemma_ring_shift(buckets, prev, (w - 1) as nat);
        vstd::arithmetic::div_mod::lemma_mod_add_multiples_vanish(prev as int, w as int);
        assert((from + w - 1) as nat == w + prev);
    }
}

proof fn lemma_ring_grows(buckets: Seq<u64>, from: nat, n: nat, m: nat)
    requires
        n <= m,
    ensures
        ring_sum(buckets, from, n) <= ring_sum(buckets, from, m),
    decreases m,
{
    if n < m {
        lemma_ring_grows(buckets, from, n, (m - 1) as nat);
    }
}

proof fn lemma_bucket_sum_update(buckets: Seq<u64>, i: int, v: u64)
    requires
        0 <= i < buckets.len(),
    ensures
        bucket_sum(buckets.update(i, v)) == bucket_sum(buckets) - buckets[i] + v,
    decreases buckets.len(),
{
    let after = buckets.update(i, v);
    if i == buckets.len() - 1 {
        assert(after.drop_last() =~= buckets.drop_last());
    } else {
        lemma_bucket_sum_update(buckets.drop_last(), i, v);
        assert(after.drop_last() =~= buckets.drop_last().update(i, v));
    }
}

proof fn lemma_bucket_sum_zero(buckets: Seq<u64>)
    requires
        forall|i: int| 0 <= i < buckets.len() ==> buckets[i] == 0,
    ensures
        bucket_sum(buckets) == 0,
    decreases buckets.len(),
{
    if buckets.len() > 0 {
        lemma_bucket_sum_zero(buckets.drop_last());
    }
}

proof fn lemma_bucket_sum_covers(buckets: Seq<u64>, i: int)
    requires
        0 <= i < buckets.len(),
    ensures
        buckets[i] <= bucket_sum(buckets),
    decreases buckets.len(),
{
    if i < buckets.len() - 1 {
        lemma_bucket_sum_covers(buckets.drop_last(), i);
    }
}

/// A rolling counter of events per second.
pub struct RollingRate {
    window_secs: u64,
    buckets: Vec<u64>,
    epoch: Vec<u64>,  // which second each bucket currently represents
}

impl View for RollingRate {
    type V = RateView;

    closed spec fn view(&self) -> RateView {
        RateView { window: self.window_secs as nat, held: |sec: nat| self.held(sec) }
    }
}

impl RollingRate {
    /// The events held for a second.
    spec fn held(self, sec: nat) -> nat {
        let i = (sec % self.window_secs as nat) as int;
        if self.epoch@[i] == sec {
            self.buckets@[i] as nat
        } else {
            0
        }
    }

    /// The counter's invariant: one bucket per second of a window of at least one second,
    /// and a grand total that fits its count.
    pub closed spec fn wf(self) -> bool {
        &&& 1 <= self.window_secs <= usize::MAX
        &&& self.buckets@.len() == self.window_secs
        &&& self.epoch@.len() == self.window_secs
        &&& bucket_sum(self.buckets@) <= u64::MAX
    }

    /// How many more events can be counted, wherever they fall.
    pub closed spec fn spare(self) -> nat {
        (u64::MAX - bucket_sum(self.buckets@)) as nat
    }

    /// One more event can be counted.
    pub open spec fn has_room(self) -> bool {
        self.spare() > 0
    }

    /// A counter over a window of `window_secs` seconds, at least one.
    pub fn new(window_secs: u64) -> (r: RollingRate)
        requires
            window_secs <= usize::MAX,
        ensures
            r.wf(),
            r.spare() == u64::MAX,
            r@ == RateView::empty(
                if window_secs == 0 {
                    1
                } else {
                    window_secs as nat
                },
            ),
    {
        let w: u64 = if window_secs == 0 {
            1
        } else {
            window_secs
        };
        let buckets: Vec<u64> = vec![0; w as usize];
        let epoch: Vec<u64> = vec![u64::MAX; w as usize];
        let r = RollingRate { window_secs: w, buckets, epoch };
        proof {
            lemma_bucket_sum_zero(r.buckets@);
            assert forall|sec: nat| r.held(sec) == 0 by {
                let i = (sec % w as nat) as int;
                assert(0 <= i < w);
                assert(r.buckets@[i] == 0);
            }
            assert(r@.held =~= RateView::empty(w as nat).held);
        }
        r
    }

    /// Whether one more event can be counted.
    pub fn room(&self) -> (r: bool)
        requires
            self.wf(),
        ensures
            r == self.has_room(),
    {
        let mut total: u64 = 0;
        let mut i: usize = 0;
        assert(self.buckets@.take(0) =~= Seq::empty());
        while i < self.buckets.len()
            invariant
                self.wf(),
                i <= self.buckets@.len(),
                total == bucket_sum(self.buckets@.take(i as int)),
            decreases self.buckets@.len() - i,
        {
            proof {
                lemma_prefix_sum(self.buckets@, i as int + 1);
                assert(self.buckets@.take(i + 1).drop_last() =~= self.buckets@.take(i as int));
            }
            total = total + self.buckets[i];
            i = i + 1;
        }
        assert(self.buckets@.take(i as int) =~= self.buckets@);
        total < u64::MAX
    }

    /// Record one event at time `now_ns`.
    pub fn record(&mut self, now_ns: u64)
        requires
            old(self).wf(),
            old(self).has_room(),
        ensures
            final(self).wf(),
            final(self)@ == old(self)@.recorded(now_ns),
            final(self)@.count(now_ns) == old(self)@.count(now_ns) + 1,
            final(self).spare() + 1 >= old(self).spare(),
    {
        let sec: u64 = now_ns / NS_PER_SEC;
        let i: usize = (sec % self.window_secs) as usize;
        proof {
            lemma_bucket_sum_covers(self.buckets@, i as int);
            lemma_bucket_sum_update(self.buckets@, i as int, 0);
            lemma_bucket_sum_update(
                self.buckets@,
                i as int,
                if self.epoch@[i as int] == sec {
                    (self.buckets@[i as int] + 1) as u64
                } else {
                    1
                },
            );
        }
        if self.epoch[i] != sec {
            self.epoch[i] = sec;
            self.buckets[i] = 0;
        }
        let n: u64 = self.buckets[i];
        self.buckets[i] = n + 1;
        proof {
            assert(self.buckets@ =~= old(self).buckets@.update(i as int, (n + 1) as u64));
            assert forall|t: nat| #[trigger] self.held(t) == (old(self)@.recorded(now_ns).held)(
                t,
            ) by {
                let j = (t % self.window_secs as nat) as int;
                assert(0 <= j < self.window_secs);
                if j != i {
                    assert(self.epoch@[j] == old(self).epoch@[j]);
                    assert(self.buckets@[j] == old(self).buckets@[j]);
                }
            }
            assert(self@.held =~= old(self)@.recorded(now_ns).held);
            assert(self@ == old(self)@.recorded(now_ns));
            law_record_adds_one(old(self)@, now_ns);
        }
    }

    /// Total events within the last `window_secs` seconds ending at `now_ns`.
    pub fn count_window(&self, now_ns: u64) -> (total: u64)
        requires
            self.wf(),
        ensures
            total == self@.count(now_ns),
    {
        let sec: u64 = now_ns / NS_PER_SEC;
        let lo: u64 = if sec >= self.window_secs - 1 {
            sec - (self.window_secs - 1)
        } else {
            0
        };
        let mut total: u64 = 0;
        let mut s: u64 = lo;
        while s <= sec
            invariant
                self.wf(),
                lo <= s <= sec + 1,
                sec == now_ns / NS_PER_SEC,
                sec < lo + self.window_secs,
                total == held_sum(self@.held, lo as nat, (s - lo) as nat),
                total <= ring_sum(self.buckets@, lo as nat, (s - lo) as nat),
            decreases sec + 1 - s,
        {
            let i: usize = (s % self.window_secs) as usize;
            proof {
                let n = (s - lo) as nat;
                assert((lo + (n + 1) - 1) as nat == s);
                assert((self@.held)(s as nat) == self.held(s as nat));
                assert(held_sum(self@.held, lo as nat, n + 1) == held_sum(self@.held, lo as nat, n)
                    + self.held(s as nat));
                assert(ring_sum(self.buckets@, lo as nat, n + 1) == ring_sum(
                    self.buckets@,
                    lo as nat,
                    n,
                ) + self.buckets@[i as int] as nat);
                lemma_ring_grows(self.buckets@, lo as nat, n + 1, self.buckets@.len());
                lemma_ring_whole(self.buckets@, lo as nat);
            }
            if self.epoch[i] == s {
                total = total + self.buckets[i];
            }
            s = s + 1;
        }
        total
    }

    /// Average events per second over the window.
    pub fn per_sec(&self, now_ns: u64) -> (r: Ratio)
        requires
            self.wf(),
        ensures
            r == self@.rate(now_ns),
    {
        Ratio::new(self.count_window(now_ns), self.window_secs)
    }
}

proof fn lemma_prefix_sum(buckets: Seq<u64>, n: int)
    requires
        0 <= n <= buckets.len(),
    ensures
        bucket_sum(buckets.take(n)) <= bucket_sum(buckets),
    decreases buckets.len() - n,
{
    if n < buckets.len() {
        lemma_prefix_sum(buckets, n + 1);
        assert(buckets.take(n + 1).drop_last() =~= buckets.take(n));
    } else {
        assert(buckets.take(n) =~= buckets);
    }
}

} // verus!
