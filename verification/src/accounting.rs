//! What a run's counters and lines add up to.

use vstd::prelude::*;

use crate::address::IpAddr;
use crate::config::DetectView;
use crate::engine::EngineView;
use crate::exposition;
use crate::findings;
use crate::flow::StateView;
use crate::metrics::MetricsView;
use crate::number::{Ratio, Scale};
use crate::pipeline;
use crate::series;
use crate::series::SeriesView;
use crate::text;
use crate::types::{Endpoint, EventKind, EventView, FlowKey, PacketMeta, Protocol, Severity};
use crate::window;

verus! {

/// How many of the events have the labels, and are the pod's where one is named.
pub open spec fn tally(
    events: Seq<EventView>,
    cidrs: Option<Seq<(IpAddr, u32)>>,
    kind: Seq<char>,
    severity: Seq<char>,
    pod: Option<Seq<char>>,
) -> nat
    decreases events.len(),
{
    if events.len() == 0 {
        0
    } else {
        let e = events.last();
        tally(events.drop_last(), cidrs, kind, severity, pod) + (if e.kind.label() == kind
            && e.severity.label() == severity && (pod is None || pipeline::pod_of(cidrs, e.key)
            == pod) {
            1nat
        } else {
            0nat
        })
    }
}

/// The metrics count every event once: in the total, under its kind and severity, and under
/// its pod where it has one. Nothing else changes.
pub proof fn law_metrics_count_every_event(
    m: MetricsView,
    cidrs: Option<Seq<(IpAddr, u32)>>,
    events: Seq<EventView>,
    kind: Seq<char>,
    severity: Seq<char>,
    pod: Seq<char>,
)
    requires
        m.consistent(),
        m.events_total + events.len() < u64::MAX,
    ensures
        ({
            let n = pipeline::with_events(m, cidrs, events);
            &&& n.consistent()
            &&& n.events_total == m.events_total + events.len()
            &&& series::count_of(n.event_counts, seq![kind, severity]) == series::count_of(
                m.event_counts,
                seq![kind, severity],
            ) + tally(events, cidrs, kind, severity, None)
            &&& series::count_of(n.pod_event_counts, seq![pod, kind, severity]) == series::count_of(
                m.pod_event_counts,
                seq![pod, kind, severity],
            ) + tally(events, cidrs, kind, severity, Some(pod))
            &&& n.packets_total == m.packets_total
            &&& n.pod_packets == m.pod_packets
            &&& n.active_flows == m.active_flows
            &&& n.half_open_max == m.half_open_max
            &&& n.rst_per_sec == m.rst_per_sec
            &&& n.new_flow_per_sec == m.new_flow_per_sec
        }),
    decreases events.len(),
{
    if events.len() > 0 {
        let front = events.drop_last();
        let e = events.last();
        law_metrics_count_every_event(m, cidrs, front, kind, severity, pod);
        let b = pipeline::with_events(m, cidrs, front);
        let own = seq![e.kind.label(), e.severity.label()];
        let asked = seq![kind, severity];
        series::law_counting_keeps_order(b.event_counts, own);
        series::law_counting_adds_one(b.event_counts, own, asked);
        assert(own == asked <==> e.kind.label() == kind && e.severity.label() == severity) by {
            if own == asked {
                assert(own[0] == asked[0] && own[1] == asked[1]);
            }
        }
        if let Some(ip) = pipeline::pod_of(cidrs, e.key) {
            let of = seq![ip, e.kind.label(), e.severity.label()];
            let wanted = seq![pod, kind, severity];
            series::law_counting_keeps_order(b.pod_event_counts, of);
            series::law_counting_adds_one(b.pod_event_counts, of, wanted);
            assert(of == wanted <==> ip == pod && e.kind.label() == kind && e.severity.label()
                == severity) by {
                if of == wanted {
                    assert(of[0] == wanted[0] && of[1] == wanted[1] && of[2] == wanted[2]);
                }
            }
        }
    }
}

/// A packet counts once in the total and once for its pod, where it has one.
pub proof fn law_metrics_count_every_packet(m: MetricsView, pod: Option<Seq<char>>,
    other: Seq<char>)
    requires
        m.consistent(),
        m.packets_total < u64::MAX,
    ensures
        ({
            let n = m.with_packet(pod);
            &&& n.packets_total == m.packets_total + 1
            &&& series::count_of(n.pod_packets, seq![other]) == series::count_of(
                m.pod_packets,
                seq![other],
            ) + (if pod == Some(other) {
                1nat
            } else {
                0nat
            })
            &&& n.event_counts == m.event_counts
            &&& n.pod_event_counts == m.pod_event_counts
            &&& n.events_total == m.events_total
        }),
{
    if let Some(ip) = pod {
        series::law_counting_adds_one(m.pod_packets, seq![ip], seq![other]);
        assert(seq![ip] == seq![other] <==> ip == other) by {
            if seq![ip] == seq![other] {
                assert(seq![ip][0] == seq![other][0]);
            }
        }
    }
}

/// The gauges show the engine: the number of flows, the greatest number of half-open
/// connections of a service, and both rates as counts over their windows.
pub proof fn law_gauges_show_the_engine(
    before: MetricsView,
    after: MetricsView,
    state: StateView,
    now: u64,
    ep: Endpoint,
)
    requires
        pipeline::is_refreshed(before, after, state, now),
    ensures
        after.active_flows == state.flows.dom().len() as u64,
        state.half_open.contains_key(ep) ==> state.half_open[ep] <= after.half_open_max,
        after.half_open_max > 0 ==> exists|s: Endpoint| #[trigger]
            state.half_open.contains_key(s) && state.half_open[s] == after.half_open_max,
        after.rst_per_sec == (Ratio {
            num: state.rst_rate.count(now) as u64,
            den: state.rst_rate.window as u64,
            scale: Scale::One,
        }),
        after.new_flow_per_sec == (Ratio {
            num: state.new_flow_rate.count(now) as u64,
            den: state.new_flow_rate.window as u64,
            scale: Scale::One,
        }),
        after.packets_total == before.packets_total,
        after.events_total == before.events_total,
        after.event_counts == before.event_counts,
        after.pod_event_counts == before.pod_event_counts,
        after.pod_packets == before.pod_packets,
{
}

/// An event's line starts with its level in brackets, and what it says stands behind its
/// kind and a colon.
pub proof fn law_event_lines(e: EventView)
    ensures
        ({
            let level = match e.severity {
                Severity::Info => "INFO"@,
                Severity::Warning => "WARN"@,
                Severity::Critical => "CRIT"@,
            };
            let line = pipeline::event_line_text(e);
            let rest = e.kind.label() + (": "@ + e.detail);
            line == "["@ + level + "] "@ + rest
        }),
{
    let level = match e.severity {
        Severity::Info => "INFO"@,
        Severity::Warning => "WARN"@,
        Severity::Critical => "CRIT"@,
    };
    assert(pipeline::event_line_text(e) =~= "["@ + level + "] "@ + (e.kind.label() + (": "@
        + e.detail)));
}

/// Endpoints are ordered by address, IPv4 before IPv6 and each by its number, then by port.
pub proof fn law_endpoints_are_ordered(a: Endpoint, b: Endpoint)
    ensures
        a.before_or_same(b) <==> match (a.ip, b.ip) {
            (IpAddr::V4(x), IpAddr::V4(y)) => x < y || (x == y && a.port <= b.port),
            (IpAddr::V4(_), IpAddr::V6(_)) => true,
            (IpAddr::V6(_), IpAddr::V4(_)) => false,
            (IpAddr::V6(x), IpAddr::V6(y)) => x < y || (x == y && a.port <= b.port),
        },
{
}

/// An endpoint's text ends in a colon and its port, and gives its address before that, an
/// IPv6 address in brackets.
pub proof fn law_endpoint_texts(e: Endpoint)
    ensures
        ({
            let cut = text::cut_last(e.text(), ':');
            let (front, port) = cut->0;
            &&& cut is Some
            &&& port.len() > 0
            &&& text::all_digits(port)
            &&& text::dec_value(port) == e.port
            &&& e.ip is V4 ==> front == e.ip.text()
            &&& e.ip is V6 ==> front == seq!['['] + e.ip.text() + seq![']']
        }),
{
    reveal_strlit(":");
    reveal_strlit("[");
    reveal_strlit("]:");
    let p = text::dec_text(e.port as nat);
    text::lemma_dec_text_value(e.port as nat);
    let front = match e.ip {
        IpAddr::V4(_) => e.ip.text(),
        IpAddr::V6(_) => seq!['['] + e.ip.text() + seq![']'],
    };
    let t = e.text();
    assert(t =~= front + seq![':'] + p);
    let n = front.len() as int;
    text::lemma_last_at(t, ':');
    let k = text::last_at(t, ':');
    if k > n {
        assert(t[k] == p[k - n - 1]);
    }
    if k < n {
        assert(t[n] == ':');
    }
    assert(t.take(n) =~= front);
    assert(t.skip(n + 1) =~= p);
}

/// Different endpoints have different texts.
pub proof fn law_endpoint_texts_differ(a: Endpoint, b: Endpoint)
    requires
        a != b,
    ensures
        a.text() != b.text(),
{
    law_endpoint_texts(a);
    law_endpoint_texts(b);
    if a.text() == b.text() {
        let (fa, pa) = text::cut_last(a.text(), ':')->0;
        let (fb, pb) = text::cut_last(b.text(), ':')->0;
        assert(a.port == b.port);
        assert(a.ip != b.ip);
        crate::addresses::law_address_texts_differ(a.ip, b.ip);
        if a.ip is V6 && b.ip is V6 {
            let x = a.ip.text();
            let y = b.ip.text();
            assert(fa.subrange(1, fa.len() - 1) =~= x);
            assert(fb.subrange(1, fb.len() - 1) =~= y);
        }
        if a.ip is V4 && b.ip is V6 {
            lemma_v4_starts_with_digit(a.ip->V4_0);
            assert(fb[0] == '[');
        }
        if a.ip is V6 && b.ip is V4 {
            lemma_v4_starts_with_digit(b.ip->V4_0);
            assert(fa[0] == '[');
        }
    }
}

proof fn lemma_v4_starts_with_digit(n: u32)
    ensures
        IpAddr::V4(n).text().len() > 0,
        '0' <= IpAddr::V4(n).text()[0] <= '9',
{
    let a = text::dec_text((n / 0x100_0000) as nat);
    text::lemma_dec_text_value((n / 0x100_0000) as nat);
    assert('0' <= a[0] <= '9');
    assert(IpAddr::V4(n).text()[0] == a[0]);
}

// ---------------------------------------------------------------------------
// Runs
// ---------------------------------------------------------------------------

/// The memory after some packets.
pub open spec fn fed(state: StateView, pkts: Seq<PacketMeta>) -> StateView
    decreases pkts.len(),
{
    if pkts.len() == 0 {
        state
    } else {
        fed(state, pkts.drop_last()).observed(pkts.last())
    }
}

/// The packet is a TCP reset: RST (0x04) without SYN (0x02).
pub open spec fn is_rst(pkt: PacketMeta) -> bool {
    pkt.proto == Protocol::Tcp && pkt.flags.0 & 0x04 != 0 && pkt.flags.0 & 0x02 == 0
}

/// How many of the packets are resets in the second of `now`.
pub open spec fn resets_now(pkts: Seq<PacketMeta>, now: u64) -> nat
    decreases pkts.len(),
{
    if pkts.len() == 0 {
        0
    } else {
        let p = pkts.last();
        resets_now(pkts.drop_last(), now) + (if is_rst(p) && p.ts_nanos as int / 1_000_000_000
            == now as int / 1_000_000_000 {
            1nat
        } else {
            0nat
        })
    }
}

/// The times of the resets among the packets.
spec fn reset_times(pkts: Seq<PacketMeta>) -> Seq<u64>
    decreases pkts.len(),
{
    if pkts.len() == 0 {
        Seq::empty()
    } else {
        let before = reset_times(pkts.drop_last());
        if is_rst(pkts.last()) {
            before.push(pkts.last().ts_nanos)
        } else {
            before
        }
    }
}

/// The packets come in the order of their times, up to `now`.
pub open spec fn in_order(pkts: Seq<PacketMeta>, now: u64) -> bool {
    &&& forall|i: int, j: int|
        0 <= i <= j < pkts.len() ==> pkts[i].ts_nanos <= pkts[j].ts_nanos
    &&& forall|i: int| 0 <= i < pkts.len() ==> (#[trigger] pkts[i]).ts_nanos <= now
}

proof fn lemma_reset_times(pkts: Seq<PacketMeta>, cfg: DetectView, now: u64)
    requires
        in_order(pkts, now),
    ensures
        ({
            let t = reset_times(pkts);
            &&& fed(StateView::empty(cfg), pkts).rst_rate == window::recorded_all(1, t)
            &&& t.len() <= pkts.len()
            &&& findings::recent(t, now, 1) == resets_now(pkts, now)
            &&& forall|i: int| 0 <= i < t.len() ==> #[trigger] t[i] <= now
            &&& pkts.len() > 0 ==> forall|i: int|
                0 <= i < t.len() ==> #[trigger] t[i] <= pkts.last().ts_nanos
            &&& forall|i: int, j: int| 0 <= i <= j < t.len() ==> t[i] <= t[j]
        }),
    decreases pkts.len(),
{
    if pkts.len() > 0 {
        let front = pkts.drop_last();
        let p = pkts.last();
        assert(in_order(front, now)) by {
            assert forall|i: int, j: int| 0 <= i <= j < front.len() implies front[i].ts_nanos
                <= front[j].ts_nanos by {
                assert(front[i] == pkts[i] && front[j] == pkts[j]);
            }
            assert forall|i: int| 0 <= i < front.len() implies (#[trigger] front[i]).ts_nanos
                <= now by {
                assert(front[i] == pkts[i]);
            }
        }
        lemma_reset_times(front, cfg, now);
        let b = reset_times(front);
        let t = reset_times(pkts);
        assert(pkts[pkts.len() - 1].ts_nanos <= now);
        if front.len() > 0 {
            assert(pkts[pkts.len() - 2].ts_nanos <= pkts[pkts.len() - 1].ts_nanos);
            assert(front.last() == pkts[pkts.len() - 2]);
        }
        if is_rst(p) {
            assert(t.drop_last() =~= b);
            assert(t.last() == p.ts_nanos);
        }
    }
}

/// The host-wide reset rate is the number of resets in the current second.
pub proof fn law_reset_rate_is_this_second(cfg: DetectView, pkts: Seq<PacketMeta>, now: u64)
    requires
        in_order(pkts, now),
        pkts.len() <= u64::MAX,
    ensures
        fed(StateView::empty(cfg), pkts).rst_rate.rate(now) == (Ratio {
            num: resets_now(pkts, now) as u64,
            den: 1,
            scale: Scale::One,
        }),
{
    lemma_reset_times(pkts, cfg, now);
    let t = reset_times(pkts);
    findings::law_rate_is_recent_events_over_the_window(1, t, now);
}

/// An engine starts with no flows, no counts, nothing remembered and no sweep.
pub proof fn law_engines_start_empty(cfg: DetectView, i: int, k: FlowKey, ep: Endpoint)
    requires
        0 <= i < 9,
    ensures
        ({
            let e = EngineView::fresh(cfg);
            &&& !e.state.flows.contains_key(k)
            &&& !e.state.half_open.contains_key(ep)
            &&& e.state.cfg == cfg
            &&& e.rules.len() == 9
            &&& e.memories.len() == 9
            &&& e.memories[i].len() == 0
            &&& e.last_sweep_ns == 0
        }),
{
}

/// A run counts its packets, remembers the time of the last one, and counts each of its
/// events in the summary; its last sweep is at that time.
pub proof fn law_runs_count_packets(
    run: pipeline::RunView,
    pkt: PacketMeta,
    events: Seq<EventView>,
)
    requires
        run.packets < u64::MAX,
        series::is_sorted(run.summary),
        series::total(run.summary) + events.len() < u64::MAX,
    ensures
        run.ingested(pkt, events).packets == run.packets + 1,
        run.ingested(pkt, events).last_ts == pkt.ts_nanos,
        run.ingested(pkt, events).cidrs == run.cidrs,
        run.ingested(pkt, events).engine == run.engine.processed(pkt),
        series::total(run.ingested(pkt, events).summary) == series::total(run.summary)
            + events.len(),
        run.finished(events).packets == run.packets,
        run.finished(events).engine.state == run.engine.state.swept(run.last_ts),
        series::total(run.finished(events).summary) == series::total(run.summary) + events.len(),
{
    pipeline::law_summary_counts_every_event(
        run.summary,
        events,
        EventKind::Retransmission,
    );
}

/// A summary's line is two spaces, the name, behind spaces up to a width of eighteen, a
/// colon and the count.
pub proof fn law_summary_lines(name: Seq<char>, n: u64)
    ensures
        ({
            let line = pipeline::summary_line((seq![name], n));
            let digits = text::dec_text(n as nat);
            let pad = if name.len() < 18 {
                18 - name.len()
            } else {
                0
            };
            &&& line.len() == 2 + pad + name.len() + 2 + digits.len()
            &&& forall|i: int| 0 <= i < 2 + pad ==> #[trigger] line[i] == ' '
            &&& line.skip(2 + pad) == name + ": "@ + digits
        }),
{
    reveal_strlit("  ");
    reveal_strlit(": ");
    let line = pipeline::summary_line((seq![name], n));
    let digits = text::dec_text(n as nat);
    let pad = if name.len() < 18 {
        18 - name.len()
    } else {
        0
    };
    assert(line.skip(2 + pad) =~= name + ": "@ + digits);
}

// ---------------------------------------------------------------------------
// Labels
// ---------------------------------------------------------------------------

/// Different kinds of events have different names.
pub proof fn law_kinds_have_their_own_names(a: EventKind, b: EventKind)
    requires
        a != b,
    ensures
        a.label() != b.label(),
{
    reveal_strlit("retransmission");
    reveal_strlit("duplicate_ack");
    reveal_strlit("out_of_order");
    reveal_strlit("zero_window");
    reveal_strlit("rst_storm");
    reveal_strlit("handshake_failure");
    reveal_strlit("handshake_timeout");
    reveal_strlit("syn_backlog");
    reveal_strlit("high_rtt");
    reveal_strlit("connection_churn");
    assert("retransmission"@.len() == 14 && "retransmission"@[0] == 'r');
    assert("duplicate_ack"@.len() == 13 && "duplicate_ack"@[0] == 'd');
    assert("out_of_order"@.len() == 12 && "out_of_order"@[0] == 'o');
    assert("zero_window"@.len() == 11 && "zero_window"@[0] == 'z');
    assert("rst_storm"@.len() == 9 && "rst_storm"@[0] == 'r');
    assert("handshake_failure"@.len() == 17 && "handshake_failure"@[0] == 'h');
    assert("handshake_timeout"@.len() == 17 && "handshake_timeout"@[0] == 'h');
    assert("syn_backlog"@.len() == 11 && "syn_backlog"@[0] == 's');
    assert("high_rtt"@.len() == 8 && "high_rtt"@[0] == 'h');
    assert("connection_churn"@.len() == 16 && "connection_churn"@[0] == 'c');
    assert("handshake_failure"@[10] == 'f' && "handshake_timeout"@[10] == 't');
}

proof fn lemma_labels_are_clean(kind: EventKind, severity: Severity)
    ensures
        exposition::is_clean(kind.label()),
        exposition::is_clean(severity.label()),
{
    reveal_strlit("retransmission");
    reveal_strlit("duplicate_ack");
    reveal_strlit("out_of_order");
    reveal_strlit("zero_window");
    reveal_strlit("rst_storm");
    reveal_strlit("handshake_failure");
    reveal_strlit("handshake_timeout");
    reveal_strlit("syn_backlog");
    reveal_strlit("high_rtt");
    reveal_strlit("connection_churn");
    reveal_strlit("info");
    reveal_strlit("warning");
    reveal_strlit("critical");
}

proof fn lemma_addresses_are_clean(ip: IpAddr)
    ensures
        exposition::is_clean(ip.text()),
{
    let t = ip.text();
    match ip {
        IpAddr::V4(n) => {
            reveal_strlit(".");
            let a = text::dec_text((n / 0x100_0000) as nat);
            let b = text::dec_text((n / 0x1_0000 % 0x100) as nat);
            let c = text::dec_text((n / 0x100 % 0x100) as nat);
            let d = text::dec_text((n % 0x100) as nat);
            text::lemma_dec_text_value((n / 0x100_0000) as nat);
            text::lemma_dec_text_value((n / 0x1_0000 % 0x100) as nat);
            text::lemma_dec_text_value((n / 0x100 % 0x100) as nat);
            text::lemma_dec_text_value((n % 0x100) as nat);
            assert(t == a + "."@ + b + "."@ + c + "."@ + d);
            assert forall|j: int| 0 <= j < t.len() implies t[j] != '"' && t[j] != '\n' by {
                let p = a.len() as int;
                let q = p + 1 + b.len();
                let r = q + 1 + c.len();
                if j < p {
                    assert(t[j] == a[j]);
                } else if p < j < q {
                    assert(t[j] == b[j - p - 1]);
                } else if q < j < r {
                    assert(t[j] == c[j - q - 1]);
                } else if j > r {
                    assert(t[j] == d[j - r - 1]);
                }
            }
        },
        IpAddr::V6(n) => {
            crate::addresses::lemma_ipv6_text_chars(n);
        },
    }
}

proof fn lemma_counting_keeps_clean(s: SeriesView, labels: Seq<Seq<char>>)
    requires
        exposition::has_clean_labels(s, labels.len()),
        forall|j: int| 0 <= j < labels.len() ==> exposition::is_clean(#[trigger] labels[j]),
    ensures
        exposition::has_clean_labels(series::counted(s, labels), labels.len()),
    decreases s.len(),
{
    let r = series::counted(s, labels);
    let n = labels.len();
    if s.len() > 0 && series::labels_before(s[0].0, labels) {
        let rest = s.skip(1);
        assert(exposition::has_clean_labels(rest, n)) by {
            assert forall|i: int|
                #![trigger rest[i]]
                0 <= i < rest.len() implies rest[i].0.len() == n && forall|j: int|
                0 <= j < n ==> exposition::is_clean(#[trigger] rest[i].0[j]) by {
                assert(rest[i] == s[i + 1]);
            }
        }
        lemma_counting_keeps_clean(rest, labels);
        let more = series::counted(rest, labels);
        assert forall|i: int|
            #![trigger r[i]]
            0 <= i < r.len() implies r[i].0.len() == n && forall|j: int|
            0 <= j < n ==> exposition::is_clean(#[trigger] r[i].0[j]) by {
            if i > 0 {
                assert(r[i] == more[i - 1]);
            } else {
                assert(r[0] == s[0]);
            }
        }
    } else if s.len() > 0 && s[0].0 == labels {
        assert forall|i: int|
            #![trigger r[i]]
            0 <= i < r.len() implies r[i].0.len() == n && forall|j: int|
            0 <= j < n ==> exposition::is_clean(#[trigger] r[i].0[j]) by {
            if i > 0 {
                assert(r[i] == s[i]);
            }
        }
    } else {
        assert forall|i: int|
            #![trigger r[i]]
            0 <= i < r.len() implies r[i].0.len() == n && forall|j: int|
            0 <= j < n ==> exposition::is_clean(#[trigger] r[i].0[j]) by {
            if i > 0 {
                assert(r[i] == s[i - 1]);
            }
        }
    }
}

/// The metrics of a run can always be read from their text: no name, severity or address
/// has a quote or a line break.
pub proof fn law_recorded_metrics_are_readable(
    m: MetricsView,
    cidrs: Option<Seq<(IpAddr, u32)>>,
    e: EventView,
)
    requires
        exposition::is_readable(m),
    ensures
        exposition::is_readable(MetricsView::empty()),
        exposition::is_readable(
            m.with_event(e.kind.label(), e.severity.label(), pipeline::pod_of(cidrs, e.key)),
        ),
        exposition::is_readable(m.with_packet(pipeline::pod_of(cidrs, e.key))),
{
    lemma_labels_are_clean(e.kind, e.severity);
    lemma_addresses_are_clean(e.key.low.ip);
    lemma_addresses_are_clean(e.key.high.ip);
    let (k, s) = (e.kind.label(), e.severity.label());
    let two = seq![k, s];
    assert(two.len() == 2);
    lemma_counting_keeps_clean(m.event_counts, two);
    if let Some(ip) = pipeline::pod_of(cidrs, e.key) {
        assert(exposition::is_clean(ip));
        let three = seq![ip, k, s];
        assert(three.len() == 3);
        lemma_counting_keeps_clean(m.pod_event_counts, three);
        let one = seq![ip];
        assert(one.len() == 1);
        lemma_counting_keeps_clean(m.pod_packets, one);
    }
}

} // verus!
