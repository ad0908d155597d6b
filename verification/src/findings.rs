//! When each finding is reported, and what it says.

use vstd::prelude::*;

use crate::detectors;
use crate::detectors::Scene;
use crate::engine;
use crate::engine::EngineView;
use crate::flow::{StateView, TcpState};
use crate::number::{Ratio, Scale};
use crate::text;
use crate::types::{EventKind, EventView, FlowKey, PacketMeta, Severity};
use crate::window::RateView;

verus! {

/// The event is of this kind and severity, about the scene's flow and time.
pub open spec fn is_finding(
    e: EventView,
    c: Scene,
    kind: EventKind,
    severity: Severity,
    value: Ratio,
) -> bool {
    &&& e.kind == kind
    &&& e.severity == severity
    &&& e.key == c.key
    &&& e.ts_nanos == c.now_ns
    &&& e.value == value
}

/// The text has that part somewhere.
pub open spec fn mentions(t: Seq<char>, part: Seq<char>) -> bool {
    exists|a: Seq<char>, b: Seq<char>| #[trigger] (a + part + b) == t
}

proof fn lemma_mentions(t: Seq<char>, a: Seq<char>, part: Seq<char>, b: Seq<char>)
    requires
        t == a + part + b,
    ensures
        mentions(t, part),
{
}

// ---------------------------------------------------------------------------
// Rules
// ---------------------------------------------------------------------------

/// A retransmission is reported exactly where the packet is one and its flow's share of
/// retransmitted segments reaches the threshold; the report gives that share and the two
/// counts.
pub proof fn law_retransmissions_are_reported(c: Scene)
    requires
        c.state.flows.contains_key(c.key),
    ensures
        ({
            let f = c.state.flows[c.key];
            let share = Ratio { num: f.retransmits, den: f.data_segments, scale: Scale::One };
            let r = detectors::retransmission_verdict(c);
            &&& r is Some <==> c.delta.is_retransmit && share.at_least(
                c.state.cfg.retransmit_ratio_warn,
            )
            &&& r is Some ==> is_finding(
                r->0,
                c,
                EventKind::Retransmission,
                Severity::Warning,
                share,
            ) && mentions((r->0).detail, c.key.text()) && mentions(
                (r->0).detail,
                text::dec_text(f.retransmits as nat) + "/"@ + text::dec_text(
                    f.data_segments as nat,
                ) + " segments"@,
            )
        }),
{
    let f = c.state.flows[c.key];
    let share = Ratio { num: f.retransmits, den: f.data_segments, scale: Scale::One };
    let percent = (Ratio { scale: Scale::Hundred, ..share }).fixed_text(1);
    let counts = text::dec_text(f.retransmits as nat) + "/"@ + text::dec_text(
        f.data_segments as nat,
    ) + " segments"@;
    let r = detectors::retransmission_verdict(c);
    if r is Some {
        let d = (r->0).detail;
        reveal_strlit(" segments (");
        reveal_strlit(" segments");
        reveal_strlit(" (");
        let front = "TCP retransmissions on "@;
        let a = text::dec_text(f.retransmits as nat);
        let b = text::dec_text(f.data_segments as nat);
        let end = percent + "% loss/retx)"@;
        let rest = ": "@ + a + "/"@ + b + " segments ("@ + end;
        assert(d =~= front + c.key.text() + rest);
        lemma_mentions(d, front, c.key.text(), rest);
        assert(" segments ("@ =~= " segments"@ + " ("@);
        let start = front + c.key.text() + ": "@;
        assert(d =~= start + counts + (" ("@ + end));
        lemma_mentions(d, start, counts, " ("@ + end);
    }
}

/// Gaps, windows that drop to zero and refused handshakes are reported exactly where the
/// packet is one.
pub proof fn law_single_signs_are_reported(c: Scene)
    ensures
        ({
            let r = detectors::out_of_order_verdict(c);
            &&& r is Some <==> c.delta.is_out_of_order
            &&& r is Some ==> is_finding(
                r->0,
                c,
                EventKind::OutOfOrder,
                Severity::Info,
                Ratio { num: 1, den: 1, scale: Scale::One },
            ) && mentions((r->0).detail, c.key.text())
        }),
        ({
            let r = detectors::zero_window_verdict(c);
            &&& r is Some <==> c.delta.zero_window_edge
            &&& r is Some ==> is_finding(
                r->0,
                c,
                EventKind::ZeroWindow,
                Severity::Warning,
                Ratio { num: 0, den: 1, scale: Scale::One },
            ) && mentions((r->0).detail, c.key.text())
        }),
        ({
            let r = detectors::handshake_failure_verdict(c);
            &&& r is Some <==> c.delta.handshake_refused
            &&& r is Some ==> is_finding(
                r->0,
                c,
                EventKind::HandshakeFailure,
                Severity::Warning,
                Ratio { num: 1, den: 1, scale: Scale::One },
            ) && mentions((r->0).detail, c.key.text())
        }),
{
    let none = Seq::<char>::empty();
    let key = c.key.text();
    let gap = "Out-of-order / gap in segment stream on "@;
    assert(gap + key =~= gap + key + none);
    lemma_mentions(gap + key, gap, key, none);
    let zero = "Zero receive window on "@;
    let stalled = " — receiver stalled / app not draining"@;
    lemma_mentions(zero + key + stalled, zero, key, stalled);
    let refused = "Connection refused (RST during handshake) on "@;
    assert(refused + key =~= refused + key + none);
    lemma_mentions(refused + key, refused, key, none);
}

/// Duplicate ACKs are reported exactly where the run has just reached the threshold; the
/// report gives the run's length.
pub proof fn law_duplicate_acks_are_reported(c: Scene)
    ensures
        ({
            let r = detectors::dup_ack_verdict(c);
            let n = c.delta.dup_ack_count;
            &&& r is Some <==> c.delta.is_dup_ack && n == c.state.cfg.dup_ack_threshold
            &&& r is Some ==> is_finding(
                r->0,
                c,
                EventKind::DuplicateAck,
                Severity::Warning,
                Ratio { num: n as u64, den: 1, scale: Scale::One },
            ) && mentions((r->0).detail, c.key.text()) && mentions(
                (r->0).detail,
                text::dec_text(n as nat) + " duplicate ACKs"@,
            )
        }),
{
    let key = c.key.text();
    let n = text::dec_text(c.delta.dup_ack_count as nat);
    let d = n + " duplicate ACKs on "@ + key + " (fast-retransmit / loss signal)"@;
    reveal_strlit(" duplicate ACKs on ");
    reveal_strlit(" duplicate ACKs");
    reveal_strlit(" on ");
    lemma_mentions(d, n + " duplicate ACKs on "@, key, " (fast-retransmit / loss signal)"@);
    let none = Seq::<char>::empty();
    let rest = " on "@ + key + " (fast-retransmit / loss signal)"@;
    assert(d =~= none + (n + " duplicate ACKs"@) + rest);
    lemma_mentions(d, none, n + " duplicate ACKs"@, rest);
}

/// A handshake's round trip is reported exactly where one was sampled and its
/// milliseconds reach the threshold, as a warning where they reach four times the
/// threshold.
pub proof fn law_slow_round_trips_are_reported(c: Scene)
    ensures
        ({
            let r = detectors::high_rtt_verdict(c);
            let warn = c.state.cfg.rtt_warn_ms;
            match c.delta.rtt_sample_ns {
                None => r is None,
                Some(t) => {
                    let ms = Ratio { num: t, den: 1_000_000_000, scale: Scale::Thousand };
                    &&& r is Some <==> ms.at_least(warn)
                    &&& r is Some ==> is_finding(
                        r->0,
                        c,
                        EventKind::HighRtt,
                        if ms.at_least_fourfold(warn) {
                            Severity::Warning
                        } else {
                            Severity::Info
                        },
                        ms,
                    ) && mentions((r->0).detail, c.key.text()) && mentions(
                        (r->0).detail,
                        ms.fixed_text(0) + " ms"@,
                    )
                },
            }
        }),
{
    if let Some(t) = c.delta.rtt_sample_ns {
        let ms = Ratio { num: t, den: 1_000_000_000, scale: Scale::Thousand };
        let r = detectors::high_rtt_verdict(c);
        if r is Some {
            let key = c.key.text();
            let d = (r->0).detail;
            let none = Seq::<char>::empty();
            assert(d =~= "High handshake RTT on "@ + key + (": "@ + ms.fixed_text(0) + " ms"@));
            lemma_mentions(d, "High handshake RTT on "@, key, ": "@ + ms.fixed_text(0) + " ms"@);
            let front = "High handshake RTT on "@ + key + ": "@;
            assert(d =~= front + (ms.fixed_text(0) + " ms"@) + none);
            lemma_mentions(d, front, ms.fixed_text(0) + " ms"@, none);
        }
    }
}

/// A reset, or a new flow, is reported as a storm, or as churn, exactly where the
/// host-wide rate of such packets reaches the threshold; the report gives the rate.
pub proof fn law_host_wide_rates_are_reported(c: Scene)
    ensures
        ({
            let rate = c.state.rst_rate.rate(c.now_ns);
            let r = detectors::rst_storm_verdict(c);
            &&& r is Some <==> c.delta.rst && rate.at_least(c.state.cfg.rst_storm_per_sec)
            &&& r is Some ==> is_finding(
                r->0,
                c,
                EventKind::RstStorm,
                Severity::Critical,
                rate,
            ) && mentions((r->0).detail, rate.fixed_text(0) + " resets/s"@)
        }),
        ({
            let rate = c.state.new_flow_rate.rate(c.now_ns);
            let r = detectors::churn_verdict(c);
            &&& r is Some <==> c.delta.new_flow && rate.at_least(c.state.cfg.churn_per_sec)
            &&& r is Some ==> is_finding(
                r->0,
                c,
                EventKind::ConnectionChurn,
                Severity::Info,
                rate,
            ) && mentions((r->0).detail, rate.fixed_text(0) + " new flows/s"@)
        }),
{
    let a = c.state.rst_rate.rate(c.now_ns).fixed_text(0);
    let d = "RST storm: "@ + a + " resets/s host-wide (near "@ + c.key.text() + ")"@;
    reveal_strlit(" resets/s host-wide (near ");
    reveal_strlit(" resets/s");
    reveal_strlit(" host-wide (near ");
    let rest = " host-wide (near "@ + c.key.text() + ")"@;
    assert(d =~= "RST storm: "@ + (a + " resets/s"@) + rest);
    lemma_mentions(d, "RST storm: "@, a + " resets/s"@, rest);
    let b = c.state.new_flow_rate.rate(c.now_ns).fixed_text(0);
    let e = "Connection churn: "@ + b + " new flows/s host-wide"@;
    reveal_strlit(" new flows/s host-wide");
    reveal_strlit(" new flows/s");
    reveal_strlit(" host-wide");
    assert(e =~= "Connection churn: "@ + (b + " new flows/s"@) + " host-wide"@);
    lemma_mentions(e, "Connection churn: "@, b + " new flows/s"@, " host-wide"@);
}

/// A backlog is reported exactly where the service of the packet's flow has as many
/// half-open connections as the threshold, or more; the report gives their number.
pub proof fn law_backlogs_are_reported(c: Scene)
    requires
        c.state.flows.contains_key(c.key),
    ensures
        ({
            let service = c.state.flows[c.key].service;
            let n = if c.state.half_open.contains_key(service) {
                c.state.half_open[service]
            } else {
                0
            };
            let r = detectors::syn_backlog_verdict(c);
            &&& r is Some <==> n >= c.state.cfg.syn_backlog_threshold
            &&& r is Some ==> is_finding(
                r->0,
                c,
                EventKind::SynBacklog,
                Severity::Warning,
                Ratio { num: n as u64, den: 1, scale: Scale::One },
            ) && mentions(
                (r->0).detail,
                service.text() + ": "@ + text::dec_text(n as nat) + " half-open connections"@,
            )
        }),
{
    let service = c.state.flows[c.key].service;
    let n = if c.state.half_open.contains_key(service) {
        c.state.half_open[service]
    } else {
        0
    };
    let r = detectors::syn_backlog_verdict(c);
    if r is Some {
        let d = (r->0).detail;
        let part = service.text() + ": "@ + text::dec_text(n as nat) + " half-open connections"@;
        reveal_strlit(" half-open connections (possible SYN flood / accept-queue exhaustion)");
        reveal_strlit(" half-open connections");
        reveal_strlit(" (possible SYN flood / accept-queue exhaustion)");
        let rest = " (possible SYN flood / accept-queue exhaustion)"@;
        assert(" half-open connections (possible SYN flood / accept-queue exhaustion)"@
            =~= " half-open connections"@ + rest);
        assert(d =~= "SYN backlog to "@ + part + rest);
        lemma_mentions(d, "SYN backlog to "@, part, rest);
    }
}

// ---------------------------------------------------------------------------
// The chain
// ---------------------------------------------------------------------------

/// The event as a sequence.
pub open spec fn one_or_none(e: Option<EventView>) -> Seq<EventView> {
    match e {
        Some(e) => seq![e],
        None => Seq::empty(),
    }
}

/// What a host-wide rule says that last spoke when its memory tells: nothing within
/// `secs` seconds of that.
pub open spec fn unless_recent(
    memory: Seq<u64>,
    secs: u64,
    now: u64,
    e: Option<EventView>,
) -> Option<EventView> {
    if memory.len() > 0 && now - memory[0] < secs * 1_000_000_000 && secs > 0 {
        None
    } else {
        e
    }
}

/// The engine's findings on a packet are those of its nine rules, in order, none left out;
/// the three host-wide ones keep silent for the configured seconds after they spoke.
pub proof fn law_findings_are_what_the_rules_say(view: EngineView, pkt: PacketMeta)
    requires
        view.rules == detectors::default_rules(view.state.cfg),
        view.state.cfg.within_clock(),
    ensures
        ({
            let c = Scene {
                state: view.state.observed(pkt),
                key: pkt.key,
                delta: view.state.delta(pkt),
                now_ns: pkt.ts_nanos,
            };
            let gap = view.state.cfg.alert_debounce_secs;
            let now = pkt.ts_nanos;
            view.findings(pkt) == one_or_none(detectors::retransmission_verdict(c)) + one_or_none(
                detectors::out_of_order_verdict(c),
            ) + one_or_none(detectors::dup_ack_verdict(c)) + one_or_none(
                detectors::zero_window_verdict(c),
            ) + one_or_none(detectors::high_rtt_verdict(c)) + one_or_none(
                detectors::handshake_failure_verdict(c),
            ) + one_or_none(
                unless_recent(view.memories[6], gap, now, detectors::rst_storm_verdict(c)),
            ) + one_or_none(
                unless_recent(view.memories[7], gap, now, detectors::syn_backlog_verdict(c)),
            ) + one_or_none(
                unless_recent(view.memories[8], gap, now, detectors::churn_verdict(c)),
            )
        }),
{
    let c = view.scene(pkt);
    let rules = view.rules;
    let ms = view.memories;
    let v0 = detectors::verdicts(rules, ms, c, pkt, 0);
    let v1 = detectors::verdicts(rules, ms, c, pkt, 1);
    let v2 = detectors::verdicts(rules, ms, c, pkt, 2);
    let v3 = detectors::verdicts(rules, ms, c, pkt, 3);
    let v4 = detectors::verdicts(rules, ms, c, pkt, 4);
    let v5 = detectors::verdicts(rules, ms, c, pkt, 5);
    let v6 = detectors::verdicts(rules, ms, c, pkt, 6);
    let v7 = detectors::verdicts(rules, ms, c, pkt, 7);
    let v8 = detectors::verdicts(rules, ms, c, pkt, 8);
    let v9 = detectors::verdicts(rules, ms, c, pkt, 9);
    assert(v1 =~= one_or_none(detectors::retransmission_verdict(c)));
    assert(v2 =~= v1 + one_or_none(detectors::out_of_order_verdict(c)));
    assert(v3 =~= v2 + one_or_none(detectors::dup_ack_verdict(c)));
    assert(v4 =~= v3 + one_or_none(detectors::zero_window_verdict(c)));
    assert(v5 =~= v4 + one_or_none(detectors::high_rtt_verdict(c)));
    assert(v6 =~= v5 + one_or_none(detectors::handshake_failure_verdict(c)));
    let gap = view.state.cfg.alert_debounce_secs;
    let now = pkt.ts_nanos;
    assert(v7 =~= v6 + one_or_none(
        unless_recent(ms[6], gap, now, detectors::rst_storm_verdict(c)),
    ));
    assert(v8 =~= v7 + one_or_none(
        unless_recent(ms[7], gap, now, detectors::syn_backlog_verdict(c)),
    ));
    assert(v9 =~= v8 + one_or_none(unless_recent(ms[8], gap, now, detectors::churn_verdict(c))));
}

/// A host-wide rule remembers the time at which it last spoke, the other rules nothing.
pub proof fn law_only_host_wide_rules_remember(view: EngineView, pkt: PacketMeta, i: int)
    requires
        view.rules == detectors::default_rules(view.state.cfg),
        view.state.cfg.within_clock(),
        0 <= i < 9,
    ensures
        ({
            let c = Scene {
                state: view.state.observed(pkt),
                key: pkt.key,
                delta: view.state.delta(pkt),
                now_ns: pkt.ts_nanos,
            };
            let gap = view.state.cfg.alert_debounce_secs;
            let now = pkt.ts_nanos;
            let said = if i == 6 {
                unless_recent(view.memories[6], gap, now, detectors::rst_storm_verdict(c))
            } else if i == 7 {
                unless_recent(view.memories[7], gap, now, detectors::syn_backlog_verdict(c))
            } else if i == 8 {
                unless_recent(view.memories[8], gap, now, detectors::churn_verdict(c))
            } else {
                None
            };
            view.processed(pkt).memories[i] == (if said is Some {
                seq![now]
            } else {
                view.memories[i]
            })
        }),
{
}

// ---------------------------------------------------------------------------
// Sweeps
// ---------------------------------------------------------------------------

/// The event tells of a handshake that was not answered.
pub open spec fn is_timeout(e: EventView, state: StateView, now: u64, k: FlowKey) -> bool {
    let f = state.flows[k];
    &&& e.kind == EventKind::HandshakeTimeout
    &&& e.severity == Severity::Warning
    &&& e.key == k
    &&& e.ts_nanos == now
    &&& e.value == (Ratio {
        num: (now - f.syn_time_ns->0) as u64,
        den: 1_000_000_000,
        scale: Scale::One,
    })
    &&& mentions(e.detail, "SYN to "@ + f.service.text() + " unanswered for "@)
}

/// A sweep's report has one event for each flow whose request was unanswered for more than
/// the timeout and not told of before, and no other.
pub proof fn law_timeouts_are_reported(
    state: StateView,
    now: u64,
    events: Seq<EventView>,
    k: FlowKey,
)
    requires
        state.cfg.within_clock(),
        engine::is_timeout_report(state, now, events),
    ensures
        ({
            let f = state.flows[k];
            let due = state.flows.contains_key(k) && f.state == TcpState::SynSent
                && !f.handshake_timeout_flagged && f.syn_time_ns is Some && now - f.syn_time_ns->0
                > state.cfg.handshake_timeout_secs * 1_000_000_000;
            &&& due ==> exists|i: int|
                0 <= i < events.len() && is_timeout(#[trigger] events[i], state, now, k)
            &&& !due ==> forall|i: int| 0 <= i < events.len() ==> (#[trigger] events[i]).key != k
            &&& forall|i: int, j: int|
                0 <= i < j < events.len() ==> (#[trigger] events[i]).key != (
                #[trigger] events[j]).key
        }),
{
    let keys = choose|keys: Seq<FlowKey>| #[trigger]
        engine::lists(keys, state.unanswered(now)) && events == engine::timeout_events(
            state,
            now,
            keys,
        );
    let f = state.flows[k];
    let due = state.flows.contains_key(k) && f.state == TcpState::SynSent
        && !f.handshake_timeout_flagged && f.syn_time_ns is Some && now - f.syn_time_ns->0
        > state.cfg.handshake_timeout_secs * 1_000_000_000;
    assert(due == state.unanswered(now).contains(k));
    assert forall|i: int| 0 <= i < events.len() implies (#[trigger] events[i]).key == keys[i] by {}
    if due {
        assert(keys.to_set().contains(k));
        let i = choose|i: int| 0 <= i < keys.len() && keys[i] == k;
        let e = events[i];
        let waited = Ratio {
            num: (now - f.syn_time_ns->0) as u64,
            den: 1_000_000_000,
            scale: Scale::One,
        };
        assert(e == engine::timeout_event(now, k, f));
        let front = "SYN to "@ + f.service.text() + " unanswered for "@;
        let rest = waited.fixed_text(1) + "s (handshake timeout)"@;
        let none = Seq::<char>::empty();
        assert(e.detail =~= none + front + rest);
        lemma_mentions(e.detail, none, front, rest);
        assert(is_timeout(e, state, now, k));
    } else {
        assert forall|i: int| 0 <= i < events.len() implies (#[trigger] events[i]).key != k by {
            assert(keys.to_set().contains(keys[i]));
        }
    }
}

/// The engine sweeps where the last sweep was a second ago or more, at the packet's time,
/// after the packet; else it only takes the packet in.
pub proof fn law_engine_sweeps_every_second(
    view: EngineView,
    pkt: PacketMeta,
    events: Seq<EventView>,
)
    requires
        view.answers(pkt, events),
    ensures
        ({
            let due = pkt.ts_nanos - view.last_sweep_ns >= 1_000_000_000;
            let next = view.processed(pkt);
            let n = view.findings(pkt).len() as int;
            &&& next.last_sweep_ns == (if due {
                pkt.ts_nanos
            } else {
                view.last_sweep_ns
            })
            &&& next.state == (if due {
                view.state.observed(pkt).swept(pkt.ts_nanos)
            } else {
                view.state.observed(pkt)
            })
            &&& n <= events.len()
            &&& events.take(n) == view.findings(pkt)
            &&& due ==> engine::is_timeout_report(
                view.state.observed(pkt),
                pkt.ts_nanos,
                events.skip(n),
            )
            &&& !due ==> events.len() == n
        }),
{
}

// ---------------------------------------------------------------------------
// Rates
// ---------------------------------------------------------------------------

/// How many of the times lie in the `window` seconds that end with the second of `now`.
pub open spec fn recent(times: Seq<u64>, now: u64, window: int) -> nat
    decreases times.len(),
{
    if times.len() == 0 {
        0
    } else {
        let sec = times.last() as int / 1_000_000_000;
        let end = now as int / 1_000_000_000;
        recent(times.drop_last(), now, window) + (if end - window < sec <= end {
            1nat
        } else {
            0nat
        })
    }
}

proof fn lemma_recent(times: Seq<u64>, now: u64, rate: RateView)
    requires
        rate.window >= 1,
    ensures
        recent(times, now, rate.window as int) == crate::window::events_between(
            times,
            rate.window_start(now),
            crate::window::second_of(now),
        ),
    decreases times.len(),
{
    if times.len() > 0 {
        lemma_recent(times.drop_last(), now, rate);
    }
}

/// The rate after events at some times, in order, is their number in the last `window`
/// seconds over the length of the window.
pub proof fn law_rate_is_recent_events_over_the_window(window: u64, times: Seq<u64>, now: u64)
    requires
        window >= 1,
        forall|i: int, j: int| 0 <= i <= j < times.len() ==> times[i] <= times[j],
        times.len() > 0 ==> times.last() <= now,
        times.len() <= u64::MAX,
    ensures
        crate::window::recorded_all(window as nat, times).rate(now) == (Ratio {
            num: recent(times, now, window as int) as u64,
            den: window,
            scale: Scale::One,
        }),
{
    let rate = crate::window::recorded_all(window as nat, times);
    crate::window::law_count_is_events_in_window(window as nat, times, now);
    lemma_window_kept(window as nat, times);
    lemma_recent(times, now, rate);
}

proof fn lemma_window_kept(window: nat, times: Seq<u64>)
    ensures
        crate::window::recorded_all(window, times).window == window,
    decreases times.len(),
{
    if times.len() > 0 {
        lemma_window_kept(window, times.drop_last());
    }
}

} // verus!
