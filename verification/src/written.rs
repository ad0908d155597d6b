//! What configuration lines, arguments and addresses that were written are read as.

use vstd::prelude::*;

use crate::address::IpAddr;
use crate::attribution;
use crate::capture;
use crate::capture::OpeningView;
use crate::cli;
use crate::cli::{ArgsView, RequestView};
use crate::config;
use crate::config::{
    Backend, CaptureView, ConfigView, DetectView, ExportView, Line, OtlpView,
};
use crate::error::Failure;
use crate::http;
use crate::number;
use crate::number::Threshold;
use crate::otlp;
use crate::otlp::TargetView;
use crate::sink;
use crate::sink::SinkView;
use crate::text;

verus! {

// ---------------------------------------------------------------------------
// Spaces and words
// ---------------------------------------------------------------------------

/// White space only.
pub open spec fn is_gap(s: Seq<char>) -> bool {
    forall|i: int| 0 <= i < s.len() ==> text::is_space(#[trigger] s[i])
}

/// Not empty, and no white space at its ends.
pub open spec fn is_tight(s: Seq<char>) -> bool {
    s.len() > 0 && !text::is_space(s[0]) && !text::is_space(s.last())
}

/// Not empty, and no white space in it.
pub open spec fn is_word(s: Seq<char>) -> bool {
    s.len() > 0 && forall|i: int| 0 <= i < s.len() ==> !text::is_space(#[trigger] s[i])
}

proof fn lemma_trimmed(a: Seq<char>, x: Seq<char>, b: Seq<char>)
    requires
        is_gap(a),
        is_gap(b),
        x.len() == 0 || is_tight(x),
    ensures
        text::trimmed(a + x + b) == x,
{
    let s = a + x + b;
    if x.len() == 0 {
        assert forall|j: int| 0 <= j < s.len() implies text::is_space(s[j]) by {
            if j < a.len() {
                assert(s[j] == a[j]);
            } else {
                assert(s[j] == b[j - a.len()]);
            }
        }
        text::lemma_trim_start(s, s.len() as int);
        assert(s.skip(s.len() as int) =~= x);
        text::lemma_trim_end(x, 0);
        assert(x.take(0) =~= x);
    } else {
        let n = a.len() as int;
        assert forall|j: int| 0 <= j < n implies text::is_space(s[j]) by {
            assert(s[j] == a[j]);
        }
        text::lemma_trim_start(s, n);
        let t = s.skip(n);
        let m = x.len() as int;
        assert(t =~= x + b);
        assert forall|j: int| m <= j < t.len() implies text::is_space(t[j]) by {
            assert(t[j] == b[j - m]);
        }
        text::lemma_trim_end(t, m);
        assert(t.take(m) =~= x);
    }
}

proof fn lemma_tight_is_trimmed(x: Seq<char>)
    requires
        x.len() == 0 || is_tight(x),
    ensures
        text::trimmed(x) == x,
{
    let none = Seq::<char>::empty();
    lemma_trimmed(none, x, none);
    assert(none + x + none =~= x);
}

proof fn lemma_first_at_is(s: Seq<char>, c: char, i: int)
    requires
        0 <= i <= s.len(),
        forall|j: int| 0 <= j < i ==> s[j] != c,
        i < s.len() ==> s[i] == c,
    ensures
        text::first_at(s, c) == i,
{
    text::lemma_first_at(s, c);
    let k = text::first_at(s, c);
    if k < i {
        assert(s[k] != c);
    }
}

proof fn lemma_last_at_is(s: Seq<char>, c: char, i: int)
    requires
        -1 <= i < s.len(),
        forall|j: int| i < j < s.len() ==> s[j] != c,
        i >= 0 ==> s[i] == c,
    ensures
        text::last_at(s, c) == i,
{
    text::lemma_last_at(s, c);
    let k = text::last_at(s, c);
    if k > i {
        assert(s[k] != c);
    }
}

/// The first word of a text, and the rest behind the space that ends it.
proof fn lemma_first_word(w: Seq<char>, rest: Seq<char>)
    requires
        is_word(w),
        rest.len() == 0 || text::is_space(rest[0]),
    ensures
        text::words(w + rest) == seq![w] + text::words(rest),
{
    let s = w + rest;
    text::lemma_word_len(s);
    let n = text::word_len(s);
    assert(n == w.len()) by {
        if n < w.len() {
            assert(s[n] == w[n]);
        }
        if n > w.len() {
            assert(s[w.len() as int] == rest[0]);
        }
    }
    assert(!text::is_space(s[0])) by {
        assert(s[0] == w[0]);
    }
    assert(s.take(n) =~= w);
    assert(s.skip(n) =~= rest);
}

proof fn lemma_space_then(c: char, rest: Seq<char>)
    requires
        text::is_space(c),
    ensures
        text::words(seq![c] + rest) == text::words(rest),
{
    let s = seq![c] + rest;
    assert(s.skip(1) =~= rest);
}

// ---------------------------------------------------------------------------
// Configuration lines
// ---------------------------------------------------------------------------

/// A comment, or nothing.
pub open spec fn is_remark(s: Seq<char>) -> bool {
    s.len() == 0 || s[0] == '#'
}

/// A key: a word that no line syntax is part of.
pub open spec fn is_key(s: Seq<char>) -> bool {
    is_word(s) && s[0] != '[' && !s.contains('=') && !s.contains('#')
}

proof fn lemma_uncommented(s: Seq<char>, remark: Seq<char>)
    requires
        !s.contains('#'),
        is_remark(remark),
    ensures
        config::without_comment(s + remark) == s,
{
    let t = s + remark;
    assert forall|j: int| 0 <= j < s.len() implies t[j] != '#' by {
        assert(s.contains(s[j]));
    }
    lemma_first_at_is(t, '#', s.len() as int);
    assert(t.take(s.len() as int) =~= s);
}

proof fn lemma_no_hash(a: Seq<char>, b: Seq<char>)
    requires
        !a.contains('#'),
        !b.contains('#'),
    ensures
        !(a + b).contains('#'),
{
    let s = a + b;
    if s.contains('#') {
        let k = choose|k: int| 0 <= k < s.len() && s[k] == '#';
        if k < a.len() {
            assert(a[k] == '#');
        } else {
            assert(b[k - a.len()] == '#');
        }
    }
}

proof fn lemma_gap_no_hash(a: Seq<char>)
    requires
        is_gap(a),
    ensures
        !a.contains('#'),
{
    if a.contains('#') {
        let k = choose|k: int| 0 <= k < a.len() && a[k] == '#';
        assert(text::is_space(a[k]));
    }
}

/// A line of a key, an equals sign and a value sets that key to that value, whatever white
/// space and comment stand around them.
pub proof fn law_setting_lines_are_read(
    indent: Seq<char>,
    key: Seq<char>,
    before: Seq<char>,
    after: Seq<char>,
    val: Seq<char>,
    trail: Seq<char>,
    remark: Seq<char>,
)
    requires
        is_gap(indent),
        is_key(key),
        is_gap(before),
        is_gap(after),
        is_tight(val),
        !val.contains('#'),
        is_gap(trail),
        is_remark(remark),
    ensures
        config::line_meaning(indent + (key + before + seq!['='] + after + val) + trail + remark)
            == Line::Setting(key, val),
{
    let eq = seq!['='];
    let core = key + before + eq + after + val;
    let line = indent + core + trail;
    lemma_gap_no_hash(indent);
    lemma_gap_no_hash(before);
    lemma_gap_no_hash(after);
    lemma_gap_no_hash(trail);
    assert(!eq.contains('#'));
    lemma_no_hash(key, before);
    lemma_no_hash(key + before, eq);
    lemma_no_hash(key + before + eq, after);
    lemma_no_hash(key + before + eq + after, val);
    lemma_no_hash(indent, core);
    lemma_no_hash(indent + core, trail);
    lemma_uncommented(line, remark);
    assert(core[0] == key[0]);
    assert(!text::is_space(key[0]));
    assert(core.last() == val.last());
    lemma_trimmed(indent, core, trail);
    let left = key + before;
    let n = left.len() as int;
    assert forall|j: int| 0 <= j < n implies core[j] != '=' by {
        if j < key.len() {
            assert(core[j] == key[j]);
            assert(key.contains(key[j]));
        } else {
            assert(core[j] == before[j - key.len()]);
            assert(text::is_space(before[j - key.len()]));
        }
    }
    lemma_first_at_is(core, '=', n);
    assert(core.take(n) =~= left);
    assert(core.skip(n + 1) =~= after + val);
    let none = Seq::<char>::empty();
    assert(!text::is_space(key[key.len() - 1]));
    lemma_trimmed(none, key, before);
    assert(none + key + before =~= left);
    lemma_trimmed(after, val, none);
    assert(after + val + none =~= after + val);
}

/// A line of a name in brackets opens that section; a line without anything but white
/// space and a comment says nothing.
pub proof fn law_section_and_blank_lines_are_read(
    indent: Seq<char>,
    name: Seq<char>,
    trail: Seq<char>,
    remark: Seq<char>,
)
    requires
        is_gap(indent),
        is_tight(name),
        !name.contains('#'),
        is_gap(trail),
        is_remark(remark),
    ensures
        config::line_meaning(indent + (seq!['['] + name + seq![']']) + trail + remark)
            == Line::Section(name),
        config::line_meaning(indent + remark) == Line::Blank,
{
    let none = Seq::<char>::empty();
    lemma_gap_no_hash(indent);
    lemma_gap_no_hash(trail);
    lemma_uncommented(indent, remark);
    lemma_trimmed(indent, none, none);
    assert(indent + none + none =~= indent);
    let open = seq!['['];
    let close = seq![']'];
    let core = open + name + close;
    assert(!open.contains('#') && !close.contains('#'));
    lemma_no_hash(open, name);
    lemma_no_hash(open + name, close);
    lemma_no_hash(indent, core);
    lemma_no_hash(indent + core, trail);
    lemma_uncommented(indent + core + trail, remark);
    lemma_trimmed(indent, core, trail);
    assert(core.subrange(1, core.len() - 1) =~= name);
    lemma_tight_is_trimmed(name);
}

// ---------------------------------------------------------------------------
// Configuration values
// ---------------------------------------------------------------------------

/// The value in quotes.
pub open spec fn in_quotes(v: Seq<char>) -> Seq<char> {
    seq!['"'] + v + seq!['"']
}

proof fn lemma_unquoted(v: Seq<char>)
    ensures
        config::unquoted(in_quotes(v)) == v,
{
    let q = in_quotes(v);
    lemma_tight_is_trimmed(q);
    assert(q.subrange(1, q.len() - 1) =~= v);
}

proof fn lemma_digits_read(n: nat, max: nat)
    ensures
        text::unsigned_value(text::dec_text(n), max) == (if n <= max {
            Some(n)
        } else {
            None
        }),
{
    text::lemma_dec_text_value(n);
    let s = text::dec_text(n);
    assert('0' <= s[0] <= '9');
}

proof fn lemma_capture_keys_differ()
    ensures
        "interface"@ != "backend"@,
        "filter"@ != "backend"@,
        "filter"@ != "interface"@,
        "pcap_path"@ != "backend"@,
        "pcap_path"@ != "interface"@,
        "pcap_path"@ != "filter"@,
        "live_command"@ != "backend"@,
        "live_command"@ != "interface"@,
        "live_command"@ != "filter"@,
        "live_command"@ != "pcap_path"@,
{
    reveal_strlit("backend");
    reveal_strlit("interface");
    reveal_strlit("filter");
    reveal_strlit("pcap_path");
    reveal_strlit("live_command");
    assert("backend"@.len() == 7 && "backend"@[0] == 'b');
    assert("interface"@.len() == 9 && "interface"@[0] == 'i');
    assert("filter"@.len() == 6 && "filter"@[0] == 'f');
    assert("pcap_path"@.len() == 9 && "pcap_path"@[0] == 'p');
    assert("live_command"@.len() == 12 && "live_command"@[0] == 'l');
}

proof fn lemma_detect_keys_differ()
    ensures
        "retransmit_ratio_warn"@ != "flow_ttl_secs"@,
        "dup_ack_threshold"@ != "flow_ttl_secs"@,
        "dup_ack_threshold"@ != "retransmit_ratio_warn"@,
        "rst_storm_per_sec"@ != "flow_ttl_secs"@,
        "rst_storm_per_sec"@ != "retransmit_ratio_warn"@,
        "rst_storm_per_sec"@ != "dup_ack_threshold"@,
        "syn_backlog_threshold"@ != "flow_ttl_secs"@,
        "syn_backlog_threshold"@ != "retransmit_ratio_warn"@,
        "syn_backlog_threshold"@ != "dup_ack_threshold"@,
        "syn_backlog_threshold"@ != "rst_storm_per_sec"@,
        "rtt_warn_ms"@ != "flow_ttl_secs"@,
        "rtt_warn_ms"@ != "retransmit_ratio_warn"@,
        "rtt_warn_ms"@ != "dup_ack_threshold"@,
        "rtt_warn_ms"@ != "rst_storm_per_sec"@,
        "rtt_warn_ms"@ != "syn_backlog_threshold"@,
        "handshake_timeout_secs"@ != "flow_ttl_secs"@,
        "handshake_timeout_secs"@ != "retransmit_ratio_warn"@,
        "handshake_timeout_secs"@ != "dup_ack_threshold"@,
        "handshake_timeout_secs"@ != "rst_storm_per_sec"@,
        "handshake_timeout_secs"@ != "syn_backlog_threshold"@,
        "handshake_timeout_secs"@ != "rtt_warn_ms"@,
        "churn_per_sec"@ != "flow_ttl_secs"@,
        "churn_per_sec"@ != "retransmit_ratio_warn"@,
        "churn_per_sec"@ != "dup_ack_threshold"@,
        "churn_per_sec"@ != "rst_storm_per_sec"@,
        "churn_per_sec"@ != "syn_backlog_threshold"@,
        "churn_per_sec"@ != "rtt_warn_ms"@,
        "churn_per_sec"@ != "handshake_timeout_secs"@,
        "alert_debounce_secs"@ != "flow_ttl_secs"@,
        "alert_debounce_secs"@ != "retransmit_ratio_warn"@,
        "alert_debounce_secs"@ != "dup_ack_threshold"@,
        "alert_debounce_secs"@ != "rst_storm_per_sec"@,
        "alert_debounce_secs"@ != "syn_backlog_threshold"@,
        "alert_debounce_secs"@ != "rtt_warn_ms"@,
        "alert_debounce_secs"@ != "handshake_timeout_secs"@,
        "alert_debounce_secs"@ != "churn_per_sec"@,
{
    reveal_strlit("flow_ttl_secs");
    reveal_strlit("retransmit_ratio_warn");
    reveal_strlit("dup_ack_threshold");
    reveal_strlit("rst_storm_per_sec");
    reveal_strlit("syn_backlog_threshold");
    reveal_strlit("rtt_warn_ms");
    reveal_strlit("handshake_timeout_secs");
    reveal_strlit("churn_per_sec");
    reveal_strlit("alert_debounce_secs");
    assert("flow_ttl_secs"@.len() == 13 && "flow_ttl_secs"@[0] == 'f');
    assert("retransmit_ratio_warn"@.len() == 21 && "retransmit_ratio_warn"@[0] == 'r');
    assert("dup_ack_threshold"@.len() == 17 && "dup_ack_threshold"@[0] == 'd');
    assert("rst_storm_per_sec"@.len() == 17 && "rst_storm_per_sec"@[0] == 'r');
    assert("syn_backlog_threshold"@.len() == 21 && "syn_backlog_threshold"@[0] == 's');
    assert("rtt_warn_ms"@.len() == 11 && "rtt_warn_ms"@[0] == 'r');
    assert("handshake_timeout_secs"@.len() == 22 && "handshake_timeout_secs"@[0] == 'h');
    assert("churn_per_sec"@.len() == 13 && "churn_per_sec"@[0] == 'c');
    assert("alert_debounce_secs"@.len() == 19 && "alert_debounce_secs"@[0] == 'a');
}

proof fn lemma_export_keys_differ()
    ensures
        "json_events"@ != "prometheus_addr"@,
{
    reveal_strlit("prometheus_addr");
    reveal_strlit("json_events");
    assert("prometheus_addr"@.len() == 15 && "prometheus_addr"@[0] == 'p');
    assert("json_events"@.len() == 11 && "json_events"@[0] == 'j');
}

proof fn lemma_otlp_keys_differ()
    ensures
        "endpoint"@ != "enabled"@,
        "path"@ != "enabled"@,
        "path"@ != "endpoint"@,
        "interval_secs"@ != "enabled"@,
        "interval_secs"@ != "endpoint"@,
        "interval_secs"@ != "path"@,
        "headers"@ != "enabled"@,
        "headers"@ != "endpoint"@,
        "headers"@ != "path"@,
        "headers"@ != "interval_secs"@,
        "resource_attributes"@ != "enabled"@,
        "resource_attributes"@ != "endpoint"@,
        "resource_attributes"@ != "path"@,
        "resource_attributes"@ != "interval_secs"@,
        "resource_attributes"@ != "headers"@,
        "service_name"@ != "enabled"@,
        "service_name"@ != "endpoint"@,
        "service_name"@ != "path"@,
        "service_name"@ != "interval_secs"@,
        "service_name"@ != "headers"@,
        "service_name"@ != "resource_attributes"@,
        "pod_cidrs"@ != "enabled"@,
        "pod_cidrs"@ != "endpoint"@,
        "pod_cidrs"@ != "path"@,
        "pod_cidrs"@ != "interval_secs"@,
        "pod_cidrs"@ != "headers"@,
        "pod_cidrs"@ != "resource_attributes"@,
        "pod_cidrs"@ != "service_name"@,
        "pod_attribution"@ != "enabled"@,
        "pod_attribution"@ != "endpoint"@,
        "pod_attribution"@ != "path"@,
        "pod_attribution"@ != "interval_secs"@,
        "pod_attribution"@ != "headers"@,
        "pod_attribution"@ != "resource_attributes"@,
        "pod_attribution"@ != "service_name"@,
        "pod_attribution"@ != "pod_cidrs"@,
{
    reveal_strlit("enabled");
    reveal_strlit("endpoint");
    reveal_strlit("path");
    reveal_strlit("interval_secs");
    reveal_strlit("headers");
    reveal_strlit("resource_attributes");
    reveal_strlit("service_name");
    reveal_strlit("pod_cidrs");
    reveal_strlit("pod_attribution");
    assert("enabled"@.len() == 7 && "enabled"@[0] == 'e');
    assert("endpoint"@.len() == 8 && "endpoint"@[0] == 'e');
    assert("path"@.len() == 4 && "path"@[0] == 'p');
    assert("interval_secs"@.len() == 13 && "interval_secs"@[0] == 'i');
    assert("headers"@.len() == 7 && "headers"@[0] == 'h');
    assert("resource_attributes"@.len() == 19 && "resource_attributes"@[0] == 'r');
    assert("service_name"@.len() == 12 && "service_name"@[0] == 's');
    assert("pod_cidrs"@.len() == 9 && "pod_cidrs"@[0] == 'p');
    assert("pod_attribution"@.len() == 15 && "pod_attribution"@[0] == 'p');
}

proof fn lemma_sections_differ()
    ensures
        "detect"@ != "capture"@,
        "export"@ != "capture"@,
        "export"@ != "detect"@,
        "otlp"@ != "capture"@,
        "otlp"@ != "detect"@,
        "otlp"@ != "export"@,
{
    reveal_strlit("capture");
    reveal_strlit("detect");
    reveal_strlit("export");
    reveal_strlit("otlp");
    assert("capture"@.len() == 7 && "capture"@[0] == 'c');
    assert("detect"@.len() == 6 && "detect"@[0] == 'd');
    assert("export"@.len() == 6 && "export"@[0] == 'e');
    assert("otlp"@.len() == 4 && "otlp"@[0] == 'o');
}

/// A text in quotes is what its key is set to, and nothing else changes.
pub proof fn law_texts_are_set(c: ConfigView, v: Seq<char>)
    ensures
        config::config_with(c, "capture"@, "interface"@, in_quotes(v)) == Ok::<ConfigView, Failure>(
            ConfigView { capture: CaptureView { interface: v, ..c.capture }, ..c },
        ),
        config::config_with(c, "capture"@, "filter"@, in_quotes(v)) == Ok::<ConfigView, Failure>(
            ConfigView { capture: CaptureView { filter: v, ..c.capture }, ..c },
        ),
        config::config_with(c, "capture"@, "pcap_path"@, in_quotes(v)) == Ok::<ConfigView, Failure>(
            ConfigView { capture: CaptureView { pcap_path: v, ..c.capture }, ..c },
        ),
        config::config_with(c, "capture"@, "live_command"@, in_quotes(v)) == Ok::<ConfigView,
            Failure>(
            ConfigView { capture: CaptureView { live_command: v, ..c.capture }, ..c },
        ),
        config::config_with(c, "export"@, "prometheus_addr"@, in_quotes(v)) == Ok::<ConfigView,
            Failure>(
            ConfigView { export: ExportView { prometheus_addr: v, ..c.export }, ..c },
        ),
        config::config_with(c, "export"@, "json_events"@, in_quotes(v)) == Ok::<ConfigView,
            Failure>(
            ConfigView { export: ExportView { json_events: v, ..c.export }, ..c },
        ),
        config::config_with(c, "otlp"@, "endpoint"@, in_quotes(v)) == Ok::<ConfigView, Failure>(
            ConfigView { otlp: OtlpView { endpoint: v, ..c.otlp }, ..c },
        ),
        config::config_with(c, "otlp"@, "path"@, in_quotes(v)) == Ok::<ConfigView, Failure>(
            ConfigView { otlp: OtlpView { path: v, ..c.otlp }, ..c },
        ),
        config::config_with(c, "otlp"@, "headers"@, in_quotes(v)) == Ok::<ConfigView, Failure>(
            ConfigView { otlp: OtlpView { headers: v, ..c.otlp }, ..c },
        ),
        config::config_with(c, "otlp"@, "resource_attributes"@, in_quotes(v)) == Ok::<ConfigView,
            Failure>(
            ConfigView { otlp: OtlpView { resource_attributes: v, ..c.otlp }, ..c },
        ),
        config::config_with(c, "otlp"@, "service_name"@, in_quotes(v)) == Ok::<ConfigView, Failure>(
            ConfigView { otlp: OtlpView { service_name: v, ..c.otlp }, ..c },
        ),
        config::config_with(c, "otlp"@, "pod_cidrs"@, in_quotes(v)) == Ok::<ConfigView, Failure>(
            ConfigView { otlp: OtlpView { pod_cidrs: v, ..c.otlp }, ..c },
        ),
{
    lemma_sections_differ();
    lemma_capture_keys_differ();
    lemma_detect_keys_differ();
    lemma_export_keys_differ();
    lemma_otlp_keys_differ();
    lemma_unquoted(v);
}

/// A count in decimal is what its key is set to, and nothing else changes.
pub proof fn law_counts_are_set(c: ConfigView, n: u64)
    ensures
        config::config_with(c, "detect"@, "flow_ttl_secs"@, text::dec_text(n as nat))
            == Ok::<ConfigView, Failure>(
            ConfigView { detect: DetectView { flow_ttl_secs: n, ..c.detect }, ..c },
        ),
        config::config_with(c, "detect"@, "handshake_timeout_secs"@, text::dec_text(n as nat))
            == Ok::<ConfigView, Failure>(
            ConfigView { detect: DetectView { handshake_timeout_secs: n, ..c.detect }, ..c },
        ),
        config::config_with(c, "detect"@, "alert_debounce_secs"@, text::dec_text(n as nat))
            == Ok::<ConfigView, Failure>(
            ConfigView { detect: DetectView { alert_debounce_secs: n, ..c.detect }, ..c },
        ),
        config::config_with(c, "otlp"@, "interval_secs"@, text::dec_text(n as nat))
            == Ok::<ConfigView, Failure>(
            ConfigView { otlp: OtlpView { interval_secs: n, ..c.otlp }, ..c },
        ),
{
    lemma_sections_differ();
    lemma_capture_keys_differ();
    lemma_detect_keys_differ();
    lemma_export_keys_differ();
    lemma_otlp_keys_differ();
    lemma_digits_read(n as nat, u64::MAX as nat);
}

/// A small count in decimal is what its key is set to; one that does not fit is rejected.
pub proof fn law_small_counts_are_set(c: ConfigView, n: nat)
    ensures
        n <= 0xffff_ffff ==> config::config_with(c, "detect"@, "dup_ack_threshold"@,
            text::dec_text(n)) == Ok::<ConfigView, Failure>(
            ConfigView { detect: DetectView { dup_ack_threshold: n as u32, ..c.detect }, ..c },
        ),
        n > 0xffff_ffff ==> config::config_with(c, "detect"@, "dup_ack_threshold"@,
            text::dec_text(n)) is Err,
        n <= 0xffff_ffff ==> config::config_with(c, "detect"@, "syn_backlog_threshold"@,
            text::dec_text(n)) == Ok::<ConfigView, Failure>(
            ConfigView { detect: DetectView { syn_backlog_threshold: n as u32, ..c.detect }, ..c },
        ),
        n > 0xffff_ffff ==> config::config_with(c, "detect"@, "syn_backlog_threshold"@,
            text::dec_text(n)) is Err,
{
    lemma_sections_differ();
    lemma_capture_keys_differ();
    lemma_detect_keys_differ();
    lemma_export_keys_differ();
    lemma_otlp_keys_differ();
    lemma_digits_read(n, u32::MAX as nat);
}

/// A switch is what `true` or `false` says, and nothing else sets it.
pub proof fn law_switches_are_set(c: ConfigView, v: Seq<char>)
    ensures
        config::config_with(c, "otlp"@, "enabled"@, "true"@) == Ok::<ConfigView, Failure>(
            ConfigView { otlp: OtlpView { enabled: true, ..c.otlp }, ..c },
        ),
        config::config_with(c, "otlp"@, "enabled"@, "false"@) == Ok::<ConfigView, Failure>(
            ConfigView { otlp: OtlpView { enabled: false, ..c.otlp }, ..c },
        ),
        is_tight(v) && v[0] != '"' && v != "true"@ && v != "false"@ ==> config::config_with(
            c,
            "otlp"@,
            "enabled"@,
            v,
        ) is Err,
        config::config_with(c, "otlp"@, "pod_attribution"@, "true"@) == Ok::<ConfigView, Failure>(
            ConfigView { otlp: OtlpView { pod_attribution: true, ..c.otlp }, ..c },
        ),
        config::config_with(c, "otlp"@, "pod_attribution"@, "false"@) == Ok::<ConfigView, Failure>(
            ConfigView { otlp: OtlpView { pod_attribution: false, ..c.otlp }, ..c },
        ),
        is_tight(v) && v[0] != '"' && v != "true"@ && v != "false"@ ==> config::config_with(
            c,
            "otlp"@,
            "pod_attribution"@,
            v,
        ) is Err,
{
    lemma_sections_differ();
    lemma_capture_keys_differ();
    lemma_detect_keys_differ();
    lemma_export_keys_differ();
    lemma_otlp_keys_differ();
    reveal_strlit("true");
    reveal_strlit("false");
    assert("true"@.len() == 4 && "false"@.len() == 5);
    lemma_tight_is_trimmed("true"@);
    lemma_tight_is_trimmed("false"@);
    if is_tight(v) {
        lemma_tight_is_trimmed(v);
    }
}

/// Each backend is set by its names, and by no other text.
pub proof fn law_backends_are_set(c: ConfigView, v: Seq<char>)
    ensures
        config::config_with(c, "capture"@, "backend"@, in_quotes("pcap_file"@)) == Ok::<ConfigView,
            Failure>(
            ConfigView { capture: CaptureView { backend: Backend::PcapFile, ..c.capture }, ..c },
        ),
        config::config_with(c, "capture"@, "backend"@, in_quotes("pcap"@)) == Ok::<ConfigView,
            Failure>(
            ConfigView { capture: CaptureView { backend: Backend::PcapFile, ..c.capture }, ..c },
        ),
        config::config_with(c, "capture"@, "backend"@, in_quotes("synthetic"@)) == Ok::<ConfigView,
            Failure>(
            ConfigView { capture: CaptureView { backend: Backend::Synthetic, ..c.capture }, ..c },
        ),
        config::config_with(c, "capture"@, "backend"@, in_quotes("demo"@)) == Ok::<ConfigView,
            Failure>(
            ConfigView { capture: CaptureView { backend: Backend::Synthetic, ..c.capture }, ..c },
        ),
        config::config_with(c, "capture"@, "backend"@, in_quotes("live"@)) == Ok::<ConfigView,
            Failure>(
            ConfigView { capture: CaptureView { backend: Backend::Live, ..c.capture }, ..c },
        ),
        config::config_with(c, "capture"@, "backend"@, in_quotes("tcpdump"@)) == Ok::<ConfigView,
            Failure>(
            ConfigView { capture: CaptureView { backend: Backend::Live, ..c.capture }, ..c },
        ),
        config::config_with(c, "capture"@, "backend"@, in_quotes("ebpf"@)) == Ok::<ConfigView,
            Failure>(
            ConfigView { capture: CaptureView { backend: Backend::Ebpf, ..c.capture }, ..c },
        ),
        config::config_with(c, "capture"@, "backend"@, in_quotes("etw"@)) == Ok::<ConfigView,
            Failure>(
            ConfigView { capture: CaptureView { backend: Backend::Etw, ..c.capture }, ..c },
        ),
        (v != "pcap_file"@ && v != "pcap"@ && v != "synthetic"@ && v != "demo"@ && v != "live"@
            && v != "tcpdump"@ && v != "ebpf"@ && v != "etw"@) ==> config::config_with(
            c,
            "capture"@,
            "backend"@,
            in_quotes(v),
        ) is Err,
{
    lemma_sections_differ();
    lemma_capture_keys_differ();
    lemma_detect_keys_differ();
    lemma_export_keys_differ();
    lemma_otlp_keys_differ();
    reveal_strlit("pcap_file");
    reveal_strlit("pcap");
    reveal_strlit("synthetic");
    reveal_strlit("demo");
    reveal_strlit("live");
    reveal_strlit("tcpdump");
    reveal_strlit("ebpf");
    reveal_strlit("etw");
    assert("pcap_file"@.len() == 9 && "pcap_file"@[0] == 'p');
    assert("pcap"@.len() == 4 && "pcap"@[0] == 'p');
    assert("synthetic"@.len() == 9 && "synthetic"@[0] == 's');
    assert("demo"@.len() == 4 && "demo"@[0] == 'd');
    assert("live"@.len() == 4 && "live"@[0] == 'l');
    assert("tcpdump"@.len() == 7 && "tcpdump"@[0] == 't');
    assert("ebpf"@.len() == 4 && "ebpf"@[0] == 'e');
    assert("etw"@.len() == 3 && "etw"@[0] == 'e');
    lemma_unquoted("pcap_file"@);
    lemma_unquoted("pcap"@);
    lemma_unquoted("synthetic"@);
    lemma_unquoted("demo"@);
    lemma_unquoted("live"@);
    lemma_unquoted("tcpdump"@);
    lemma_unquoted("ebpf"@);
    lemma_unquoted("etw"@);
    lemma_unquoted(v);
}

proof fn lemma_word_differs(s: Seq<char>, word: Seq<char>)
    requires
        s.len() > 0,
        '0' <= s[0] <= '9',
        word.len() > 0,
        !('0' <= word[0] <= '9'),
    ensures
        !number::reads_as(s, word),
{
    if number::reads_as(s, word) {
        assert(number::lower(s[0]) == word[0]);
    }
}

/// Digits, alone or with a point among them, are read as the decimal number they write.
pub proof fn law_decimal_numbers_are_read(a: Seq<char>, f: Seq<char>)
    requires
        a.len() > 0,
        text::all_digits(a),
        text::all_digits(f),
    ensures
        number::number_value(a) == Some(
            Threshold::Finite { negative: false, mantissa: text::dec_value(a), exponent: 0 },
        ),
        number::number_value(a + seq!['.'] + f) == Some(
            Threshold::Finite {
                negative: false,
                mantissa: text::dec_value(a + f),
                exponent: -(f.len() as int),
            },
        ),
{
    reveal_strlit("inf");
    reveal_strlit("infinity");
    reveal_strlit("nan");
    assert('0' <= a[0] <= '9');
    let s = a + seq!['.'] + f;
    assert(s[0] == a[0]);
    lemma_word_differs(a, "inf"@);
    lemma_word_differs(a, "infinity"@);
    lemma_word_differs(a, "nan"@);
    lemma_word_differs(s, "inf"@);
    lemma_word_differs(s, "infinity"@);
    lemma_word_differs(s, "nan"@);
    assert forall|j: int| 0 <= j < a.len() implies a[j] != 'e' && a[j] != 'E' && a[j] != '.' by {
        assert('0' <= a[j] <= '9');
    }
    assert forall|j: int| 0 <= j < s.len() implies s[j] != 'e' && s[j] != 'E' by {
        if j < a.len() {
            assert(s[j] == a[j]);
        } else if j > a.len() {
            assert(s[j] == f[j - a.len() - 1]);
        }
    }
    lemma_first_at_is(a, 'e', a.len() as int);
    lemma_first_at_is(a, 'E', a.len() as int);
    lemma_first_at_is(a, '.', a.len() as int);
    lemma_first_at_is(s, 'e', s.len() as int);
    lemma_first_at_is(s, 'E', s.len() as int);
    assert(a.take(a.len() as int) =~= a);
    assert(s.take(s.len() as int) =~= s);
    assert forall|j: int| 0 <= j < a.len() implies s[j] != '.' by {
        assert(s[j] == a[j]);
    }
    lemma_first_at_is(s, '.', a.len() as int);
    assert(s.take(a.len() as int) =~= a);
    assert(s.skip(a.len() as int + 1) =~= f);
    let d = a + f;
    assert forall|j: int| 0 <= j < d.len() implies '0' <= #[trigger] d[j] <= '9' by {
        if j < a.len() {
            assert(d[j] == a[j]);
        } else {
            assert(d[j] == f[j - a.len()]);
        }
    }
}

/// A decimal number is what its key is set to, and nothing else changes.
pub proof fn law_thresholds_are_set(c: ConfigView, n: nat, f: Seq<char>)
    requires
        text::all_digits(f),
    ensures
        config::config_with(c, "detect"@, "retransmit_ratio_warn"@, text::dec_text(n))
            == Ok::<ConfigView, Failure>(
            ConfigView { detect: DetectView { retransmit_ratio_warn: Threshold::Finite { negative: false, mantissa: n, exponent: 0 }, ..c.detect }, ..c },
        ),
        config::config_with(c, "detect"@, "retransmit_ratio_warn"@, text::dec_text(n) + seq!['.']
            + f) == Ok::<ConfigView, Failure>(
            ConfigView { detect: DetectView { retransmit_ratio_warn: Threshold::Finite {
                        negative: false,
                        mantissa: text::dec_value(text::dec_text(n) + f),
                        exponent: -(f.len() as int),
                    }, ..c.detect }, ..c },
        ),
        config::config_with(c, "detect"@, "rst_storm_per_sec"@, text::dec_text(n))
            == Ok::<ConfigView, Failure>(
            ConfigView { detect: DetectView { rst_storm_per_sec: Threshold::Finite { negative: false, mantissa: n, exponent: 0 }, ..c.detect }, ..c },
        ),
        config::config_with(c, "detect"@, "rst_storm_per_sec"@, text::dec_text(n) + seq!['.'] + f)
            == Ok::<ConfigView, Failure>(
            ConfigView { detect: DetectView { rst_storm_per_sec: Threshold::Finite {
                        negative: false,
                        mantissa: text::dec_value(text::dec_text(n) + f),
                        exponent: -(f.len() as int),
                    }, ..c.detect }, ..c },
        ),
        config::config_with(c, "detect"@, "rtt_warn_ms"@, text::dec_text(n)) == Ok::<ConfigView,
            Failure>(
            ConfigView { detect: DetectView { rtt_warn_ms: Threshold::Finite { negative: false,
                mantissa: n, exponent: 0 }, ..c.detect }, ..c },
        ),
        config::config_with(c, "detect"@, "rtt_warn_ms"@, text::dec_text(n) + seq!['.'] + f)
            == Ok::<ConfigView, Failure>(
            ConfigView { detect: DetectView { rtt_warn_ms: Threshold::Finite {
                        negative: false,
                        mantissa: text::dec_value(text::dec_text(n) + f),
                        exponent: -(f.len() as int),
                    }, ..c.detect }, ..c },
        ),
        config::config_with(c, "detect"@, "churn_per_sec"@, text::dec_text(n)) == Ok::<ConfigView,
            Failure>(
            ConfigView { detect: DetectView { churn_per_sec: Threshold::Finite { negative: false,
                mantissa: n, exponent: 0 }, ..c.detect }, ..c },
        ),
        config::config_with(c, "detect"@, "churn_per_sec"@, text::dec_text(n) + seq!['.'] + f)
            == Ok::<ConfigView, Failure>(
            ConfigView { detect: DetectView { churn_per_sec: Threshold::Finite {
                        negative: false,
                        mantissa: text::dec_value(text::dec_text(n) + f),
                        exponent: -(f.len() as int),
                    }, ..c.detect }, ..c },
        ),
{
    lemma_sections_differ();
    lemma_capture_keys_differ();
    lemma_detect_keys_differ();
    lemma_export_keys_differ();
    lemma_otlp_keys_differ();
    text::lemma_dec_text_value(n);
    law_decimal_numbers_are_read(text::dec_text(n), f);
}

// ---------------------------------------------------------------------------
// Arguments
// ---------------------------------------------------------------------------

/// Each option takes the word behind it and sets its own argument, each switch its own, a
/// request for help ends the reading, other words are refused, and at the end the arguments
/// stand.
pub proof fn law_arguments_are_read(a: ArgsView, words: Seq<Seq<char>>, at: nat)
    ensures
        at >= words.len() ==> cli::request_from(a, words, at) == Ok::<RequestView, Seq<char>>(
            RequestView::Run(a),
        ),
        at + 1 < words.len() && words[at as int] == "--config"@ ==> cli::request_from(a, words, at)
            == cli::request_from(
            ArgsView { config: Some(words[at as int + 1]), ..a },
            words,
            at + 2,
        ),
        at + 1 == words.len() && words[at as int] == "--config"@ ==> cli::request_from(a, words,
            at) is Err,
        at + 1 < words.len() && words[at as int] == "--backend"@ ==> cli::request_from(a, words, at)
            == cli::request_from(
            ArgsView { backend: Some(words[at as int + 1]), ..a },
            words,
            at + 2,
        ),
        at + 1 == words.len() && words[at as int] == "--backend"@ ==> cli::request_from(a, words,
            at) is Err,
        at + 1 < words.len() && words[at as int] == "--pcap"@ ==> cli::request_from(a, words, at)
            == cli::request_from(
            ArgsView { pcap: Some(words[at as int + 1]), ..a },
            words,
            at + 2,
        ),
        at + 1 == words.len() && words[at as int] == "--pcap"@ ==> cli::request_from(a, words,
            at) is Err,
        at + 1 < words.len() && words[at as int] == "--iface"@ ==> cli::request_from(a, words, at)
            == cli::request_from(
            ArgsView { iface: Some(words[at as int + 1]), ..a },
            words,
            at + 2,
        ),
        at + 1 == words.len() && words[at as int] == "--iface"@ ==> cli::request_from(a, words,
            at) is Err,
        at + 1 < words.len() && words[at as int] == "--live-cmd"@ ==> cli::request_from(a, words,
            at)
            == cli::request_from(
            ArgsView { live_cmd: Some(words[at as int + 1]), ..a },
            words,
            at + 2,
        ),
        at + 1 == words.len() && words[at as int] == "--live-cmd"@ ==> cli::request_from(a, words,
            at) is Err,
        at + 1 < words.len() && words[at as int] == "--json"@ ==> cli::request_from(a, words, at)
            == cli::request_from(
            ArgsView { json: Some(words[at as int + 1]), ..a },
            words,
            at + 2,
        ),
        at + 1 == words.len() && words[at as int] == "--json"@ ==> cli::request_from(a, words,
            at) is Err,
        at < words.len() && words[at as int] == "--demo"@ ==> cli::request_from(a, words, at)
            == cli::request_from(ArgsView { backend: Some("synthetic"@), ..a }, words, at + 1),
        at < words.len() && words[at as int] == "--no-metrics"@ ==> cli::request_from(a, words, at)
            == cli::request_from(ArgsView { no_metrics: true, ..a }, words, at + 1),
        at < words.len() && words[at as int] == "--quiet"@ ==> cli::request_from(a, words, at)
            == cli::request_from(ArgsView { quiet: true, ..a }, words, at + 1),
        at < words.len() && words[at as int] == "-h"@ ==> cli::request_from(a, words, at) == Ok::<
            RequestView,
            Seq<char>,
        >(RequestView::Help),
        at < words.len() && words[at as int] == "--help"@ ==> cli::request_from(a, words, at)
            == Ok::<
            RequestView,
            Seq<char>,
        >(RequestView::Help),
        at < words.len() && words[at as int] != "--config"@ && words[at as int] != "--backend"@
            && words[at as int] != "--pcap"@ && words[at as int] != "--iface"@
            && words[at as int] != "--live-cmd"@ && words[at as int] != "--json"@
            && words[at as int] != "--demo"@ && words[at as int] != "--no-metrics"@
            && words[at as int] != "--quiet"@ && words[at as int] != "-h"@
            && words[at as int] != "--help"@ ==> cli::request_from(a, words, at) is Err,
{
    reveal_strlit("--config");
    reveal_strlit("--backend");
    reveal_strlit("--pcap");
    reveal_strlit("--iface");
    reveal_strlit("--live-cmd");
    reveal_strlit("--json");
    reveal_strlit("--demo");
    reveal_strlit("--no-metrics");
    reveal_strlit("--quiet");
    reveal_strlit("-h");
    reveal_strlit("--help");
    assert("--config"@.len() == 8 && "--config"@[2] == 'c');
    assert("--backend"@.len() == 9 && "--backend"@[2] == 'b');
    assert("--pcap"@.len() == 6 && "--pcap"@[2] == 'p');
    assert("--iface"@.len() == 7 && "--iface"@[2] == 'i');
    assert("--live-cmd"@.len() == 10 && "--live-cmd"@[2] == 'l');
    assert("--json"@.len() == 6 && "--json"@[2] == 'j');
    assert("--demo"@.len() == 6 && "--demo"@[2] == 'd');
    assert("--no-metrics"@.len() == 12 && "--no-metrics"@[2] == 'n');
    assert("--quiet"@.len() == 7 && "--quiet"@[2] == 'q');
    assert("-h"@.len() == 2 && "-h"@[1] == 'h');
    assert("--help"@.len() == 6 && "--help"@[2] == 'h');
}

/// Every argument that is given ends up in its setting, whatever the configuration said; a
/// capture file also chooses its backend, over the one that is named.
pub proof fn law_arguments_override_the_configuration(c: ConfigView, a: ArgsView)
    requires
        cli::layered(c, a) is Ok,
    ensures
        ({
            let next = cli::layered(c, a)->Ok_0;
            &&& a.pcap is Some ==> next.capture.pcap_path == a.pcap->0 && next.capture.backend
                == Backend::PcapFile
            &&& a.pcap is None ==> next.capture.pcap_path == c.capture.pcap_path
            &&& a.pcap is None && a.backend is Some ==> config::config_with(
                c,
                "capture"@,
                "backend"@,
                in_quotes(a.backend->0),
            ) is Ok && next.capture.backend == (config::config_with(
                c,
                "capture"@,
                "backend"@,
                in_quotes(a.backend->0),
            )->Ok_0).capture.backend
            &&& a.pcap is None && a.backend is None ==> next.capture.backend == c.capture.backend
            &&& next.capture.interface == (if a.iface is Some {
                a.iface->0
            } else {
                c.capture.interface
            })
            &&& next.capture.live_command == (if a.live_cmd is Some {
                a.live_cmd->0
            } else {
                c.capture.live_command
            })
            &&& next.export.json_events == (if a.json is Some {
                a.json->0
            } else {
                c.export.json_events
            })
            &&& next.capture.filter == c.capture.filter
            &&& next.export.prometheus_addr == c.export.prometheus_addr
        }),
{
    lemma_sections_differ();
    lemma_capture_keys_differ();
    if let Some(name) = a.backend {
        lemma_unquoted(name);
    }
}

// ---------------------------------------------------------------------------
// Requests and responses
// ---------------------------------------------------------------------------

/// A request line of a method, a path and a version asks for that path.
pub proof fn law_request_lines_are_read(
    method: Seq<char>,
    path: Seq<char>,
    version: Seq<char>,
    end: Seq<char>,
)
    requires
        is_word(method),
        is_word(path),
        is_word(version),
        is_gap(end),
    ensures
        http::requested_path(method + (seq![' '] + (path + (seq![' '] + (version + end))))) == path,
{
    let c = version + end;
    let b = path + (seq![' '] + c);
    let sp = seq![' '];
    assert((sp + b)[0] == ' ');
    lemma_first_word(method, sp + b);
    lemma_space_then(' ', b);
    assert((sp + c)[0] == ' ');
    lemma_first_word(path, sp + c);
    let w = text::words(method + (sp + b));
    assert(w == seq![method] + (seq![path] + text::words(sp + c)));
    assert(w[1] == path);
}

/// Paths under `/metrics` are the metrics, paths under `/healthz` the health page, and
/// all others are missing.
pub proof fn law_paths_have_their_pages(rest: Seq<char>, path: Seq<char>)
    ensures
        http::page_at("/metrics"@ + rest) == http::Page::Metrics,
        http::page_at("/healthz"@ + rest) == http::Page::Health,
        (forall|r: Seq<char>| path != #[trigger] ("/metrics"@ + r) && path != "/healthz"@ + r)
            ==> http::page_at(path) == http::Page::Missing,
{
    reveal_strlit("/metrics");
    reveal_strlit("/healthz");
    assert(("/metrics"@ + rest).take(8) =~= "/metrics"@);
    assert(("/healthz"@ + rest).take(8) =~= "/healthz"@);
    assert("/metrics"@[1] == 'm' && "/healthz"@[1] == 'h');
    if text::has_prefix("/healthz"@ + rest, "/metrics"@) {
        assert(("/healthz"@ + rest).take(8)[1] == 'h');
    }
    if text::has_prefix(path, "/metrics"@) {
        assert(path =~= "/metrics"@ + path.skip(8));
    }
    if text::has_prefix(path, "/healthz"@) {
        assert(path =~= "/healthz"@ + path.skip(8));
        assert("/metrics"@ + path.skip(8) != path);
    }
}

/// A response is a head, an empty line and the page, and the head gives the length of the
/// page in bytes.
pub open spec fn is_response(s: Seq<char>, status: Seq<char>, kind: Seq<char>,
    page: Seq<char>) -> bool {
    exists|n: Seq<char>|
        #![trigger text::dec_value(n)]
        {
            &&& n.len() > 0
            &&& text::all_digits(n)
            &&& text::dec_value(n) == vstd::utf8::encode_utf8(page).len()
            &&& s == "HTTP/1.1 "@ + status + "\r\nContent-Type: "@ + kind
                + "\r\nContent-Length: "@ + n + "\r\nConnection: close\r\n\r\n"@ + page
        }
}

proof fn lemma_is_response(s: Seq<char>, status: Seq<char>, kind: Seq<char>, page: Seq<char>)
    requires
        s == "HTTP/1.1 "@ + status + "\r\nContent-Type: "@ + kind + "\r\nContent-Length: "@
            + text::dec_text(vstd::utf8::encode_utf8(page).len())
            + "\r\nConnection: close\r\n\r\n"@ + page,
    ensures
        is_response(s, status, kind, page),
{
    let n = text::dec_text(vstd::utf8::encode_utf8(page).len());
    text::lemma_dec_text_value(vstd::utf8::encode_utf8(page).len());
    assert(text::dec_value(n) == vstd::utf8::encode_utf8(page).len());
}

/// Every page is answered with its status, its kind, its length and its text.
pub proof fn law_pages_are_answered(metrics: Seq<char>)
    ensures
        is_response(
            http::response_text(http::Page::Metrics, metrics),
            "200 OK"@,
            "text/plain; version=0.0.4"@,
            metrics,
        ),
        is_response(
            http::response_text(http::Page::Health, metrics),
            "200 OK"@,
            "text/plain"@,
            "ok\n"@,
        ),
        is_response(
            http::response_text(http::Page::Missing, metrics),
            "404 Not Found"@,
            "text/plain"@,
            "not found\n"@,
        ),
{
    lemma_is_response(
        http::response_text(http::Page::Metrics, metrics),
        "200 OK"@,
        "text/plain; version=0.0.4"@,
        metrics,
    );
    lemma_is_response(
        http::response_text(http::Page::Health, metrics),
        "200 OK"@,
        "text/plain"@,
        "ok\n"@,
    );
    lemma_is_response(
        http::response_text(http::Page::Missing, metrics),
        "404 Not Found"@,
        "text/plain"@,
        "not found\n"@,
    );
}

/// An endpoint of a host and a port, with or without a path behind them, is where metrics
/// are posted to, under the configured path; without a port it is 4318.
pub proof fn law_endpoints_are_read(cfg: OtlpView, host: Seq<char>, port: u16, tail: Seq<char>)
    requires
        is_word(host),
        !host.contains('/'),
        !host.contains(':'),
        tail.len() == 0 || tail[0] == '/' && is_word(tail),
    ensures
        ({
            let with_port = OtlpView {
                endpoint: "http://"@ + (host + seq![':'] + text::dec_text(port as nat) + tail),
                ..cfg
            };
            let without = OtlpView { endpoint: "http://"@ + (host + tail), ..cfg };
            &&& otlp::target_value(with_port) is Ok
            &&& (otlp::target_value(with_port)->Ok_0).host == host
            &&& (otlp::target_value(with_port)->Ok_0).port == port
            &&& (otlp::target_value(with_port)->Ok_0).path == cfg.path
            &&& otlp::target_value(without) is Ok
            &&& (otlp::target_value(without)->Ok_0).host == host
            &&& (otlp::target_value(without)->Ok_0).port == 4318
            &&& (otlp::target_value(without)->Ok_0).path == cfg.path
        }),
{
    let digits = text::dec_text(port as nat);
    text::lemma_dec_text_value(port as nat);
    lemma_digits_read(port as nat, u16::MAX as nat);
    let a = host + seq![':'] + digits;
    assert forall|j: int| 0 <= j < a.len() implies a[j] != '/' && !text::is_space(a[j]) by {
        if j < host.len() {
            assert(a[j] == host[j]);
            assert(host.contains(host[j]));
        } else if j > host.len() {
            assert(a[j] == digits[j - host.len() - 1]);
        }
    }
    assert forall|j: int| 0 <= j < host.len() implies host[j] != '/' && host[j] != ':'
        && !text::is_space(host[j]) by {
        assert(host.contains(host[j]));
    }
    lemma_endpoint(a, tail);
    lemma_endpoint(host, tail);
    assert forall|j: int| host.len() < j < a.len() implies a[j] != ':' by {
        assert(a[j] == digits[j - host.len() - 1]);
    }
    lemma_last_at_is(a, ':', host.len() as int);
    assert(a.take(host.len() as int) =~= host);
    assert(a.skip(host.len() as int + 1) =~= digits);
    lemma_last_at_is(host, ':', -1);
}

proof fn lemma_endpoint(a: Seq<char>, tail: Seq<char>)
    requires
        a.len() > 0,
        forall|j: int| 0 <= j < a.len() ==> a[j] != '/' && !text::is_space(a[j]),
        tail.len() == 0 || tail[0] == '/' && is_word(tail),
    ensures
        ({
            let e = "http://"@ + (a + tail);
            &&& text::trimmed(e) == e
            &&& text::has_prefix(e, "http://"@)
            &&& e.skip(7) == a + tail
            &&& (a + tail).take(text::first_at(a + tail, '/')) == a
        }),
{
    reveal_strlit("http://");
    let rest = a + tail;
    let e = "http://"@ + rest;
    assert(!text::is_space(e.last())) by {
        if tail.len() > 0 {
            assert(e.last() == tail[tail.len() - 1]);
        } else {
            assert(e.last() == a[a.len() - 1]);
        }
    }
    lemma_tight_is_trimmed(e);
    assert(e.take(7) =~= "http://"@);
    assert(e.skip(7) =~= rest);
    assert forall|j: int| 0 <= j < a.len() implies rest[j] != '/' by {
        assert(rest[j] == a[j]);
    }
    lemma_first_at_is(rest, '/', a.len() as int);
    assert(rest.take(a.len() as int) =~= a);
}

/// A collector's answer is a complaint exactly where its second word, the status, does not
/// start with a 2.
pub proof fn law_answers_are_judged_by_their_status(
    version: Seq<char>,
    status: Seq<char>,
    rest: Seq<char>,
)
    requires
        is_word(version),
        is_word(status),
        rest.len() == 0 || text::is_space(rest[0]),
    ensures
        ({
            let r = otlp::response_complaint(version + (seq![' '] + (status + rest)));
            &&& status[0] == '2' ==> r is None
            &&& status[0] != '2' ==> r == Some("collector returned HTTP "@ + status)
        }),
{
    let b = status + rest;
    let sp = seq![' '];
    assert((sp + b)[0] == ' ');
    lemma_first_word(version, sp + b);
    lemma_space_then(' ', b);
    lemma_first_word(status, rest);
    let w = text::words(version + (sp + b));
    assert(w[1] == status);
}

// ---------------------------------------------------------------------------
// Networks
// ---------------------------------------------------------------------------

/// An IPv4 network written as an address and a prefix is read as them, white space or not;
/// a prefix over 32 is refused.
pub proof fn law_networks_are_read(
    lead: Seq<char>,
    n: u32,
    prefix: nat,
    trail: Seq<char>,
)
    requires
        is_gap(lead),
        is_gap(trail),
    ensures
        attribution::cidr_value(
            lead + (IpAddr::V4(n).text() + seq!['/'] + text::dec_text(prefix)) + trail,
        ) == (if prefix <= 32 {
            Some((IpAddr::V4(n), prefix as u32))
        } else {
            None
        }),
{
    let t = IpAddr::V4(n).text();
    let d = text::dec_text(prefix);
    let core = t + seq!['/'] + d;
    text::lemma_dec_text_value(prefix);
    lemma_digits_read(prefix, u32::MAX as nat);
    lemma_ipv4_chars(n);
    assert('0' <= d[0] <= '9');
    assert('0' <= d[d.len() - 1] <= '9');
    assert(core[0] == t[0]);
    assert(core.last() == d[d.len() - 1]);
    lemma_trimmed(lead, core, trail);
    assert forall|j: int| 0 <= j < t.len() implies core[j] != '/' by {
        assert(core[j] == t[j]);
    }
    lemma_first_at_is(core, '/', t.len() as int);
    assert(core.take(t.len() as int) =~= t);
    assert(core.skip(t.len() as int + 1) =~= d);
    lemma_tight_is_trimmed(t);
    lemma_tight_is_trimmed(d);
    crate::address::law_ipv4_text_reads_back(n);
}

/// An IPv6 network written as an address and a prefix is read as them, white space or not;
/// a prefix over 128 is refused.
pub proof fn law_wide_networks_are_read(
    lead: Seq<char>,
    n: u128,
    prefix: nat,
    trail: Seq<char>,
)
    requires
        is_gap(lead),
        is_gap(trail),
    ensures
        attribution::cidr_value(
            lead + (IpAddr::V6(n).text() + seq!['/'] + text::dec_text(prefix)) + trail,
        ) == (if prefix <= 128 {
            Some((IpAddr::V6(n), prefix as u32))
        } else {
            None
        }),
{
    let t = IpAddr::V6(n).text();
    let d = text::dec_text(prefix);
    let core = t + seq!['/'] + d;
    text::lemma_dec_text_value(prefix);
    lemma_digits_read(prefix, u32::MAX as nat);
    crate::addresses::lemma_ipv6_text_chars(n);
    assert(('0' <= t[0] <= '9') || ('a' <= t[0] <= 'f') || t[0] == ':' || t[0] == '.');
    let last = t[t.len() - 1];
    assert(('0' <= last <= '9') || ('a' <= last <= 'f') || last == ':' || last == '.');
    assert('0' <= d[0] <= '9');
    assert('0' <= d[d.len() - 1] <= '9');
    assert(core[0] == t[0]);
    assert(core.last() == d[d.len() - 1]);
    lemma_trimmed(lead, core, trail);
    assert forall|j: int| 0 <= j < t.len() implies core[j] != '/' by {
        assert(core[j] == t[j]);
    }
    lemma_first_at_is(core, '/', t.len() as int);
    assert(core.take(t.len() as int) =~= t);
    assert(core.skip(t.len() as int + 1) =~= d);
    lemma_tight_is_trimmed(t);
    lemma_tight_is_trimmed(d);
    crate::addresses::law_ipv6_text_reads_back(n);
}

proof fn lemma_ipv4_chars(n: u32)
    ensures
        is_tight(IpAddr::V4(n).text()),
        forall|j: int|
            0 <= j < IpAddr::V4(n).text().len() ==> #[trigger] IpAddr::V4(n).text()[j] != '/',
{
    reveal_strlit(".");
    let a = text::dec_text((n / 0x100_0000) as nat);
    let b = text::dec_text((n / 0x1_0000 % 0x100) as nat);
    let c = text::dec_text((n / 0x100 % 0x100) as nat);
    let d = text::dec_text((n % 0x100) as nat);
    text::lemma_dec_text_value((n / 0x100_0000) as nat);
    text::lemma_dec_text_value((n / 0x1_0000 % 0x100) as nat);
    text::lemma_dec_text_value((n / 0x100 % 0x100) as nat);
    text::lemma_dec_text_value((n % 0x100) as nat);
    let t = IpAddr::V4(n).text();
    assert(t == a + "."@ + b + "."@ + c + "."@ + d);
    assert forall|j: int| 0 <= j < t.len() implies ('0' <= #[trigger] t[j] <= '9') || t[j]
        == '.' by {
        let p = a.len() as int;
        let q = p + 1 + b.len();
        let r = q + 1 + c.len();
        if j < p {
            assert(t[j] == a[j]);
        } else if p < j < q {
            assert(t[j] == b[j - p - 1]);
        } else if q < j < r {
            assert(t[j] == c[j - q - 1]);
        } else if j > r {
            assert(t[j] == d[j - r - 1]);
        }
    }
    assert(t[0] == a[0]);
    assert(t.last() == d[d.len() - 1]);
}

/// An address is in a network of its own family exactly where their first `prefix` bits
/// agree: where both lie in the same block of addresses of that size. It is in none of the
/// other family.
pub proof fn law_networks_are_blocks(n: u32, a: u32, prefix: u32, m: u128, b: u128)
    requires
        prefix <= 32,
    ensures
        crate::address::in_network(IpAddr::V4(n), prefix, IpAddr::V4(a)) <==> n as int
            / vstd::arithmetic::power2::pow2((32 - prefix) as nat) as int == a as int
            / vstd::arithmetic::power2::pow2((32 - prefix) as nat) as int,
        !crate::address::in_network(IpAddr::V4(n), prefix, IpAddr::V6(b)),
        !crate::address::in_network(IpAddr::V6(m), prefix, IpAddr::V4(a)),
{
    let k = (32 - prefix) as u32;
    let p = vstd::arithmetic::power2::pow2((32 - prefix) as nat) as int;
    if prefix > 0 {
        vstd::bits::lemma_u32_shr_is_div(n, k);
        vstd::bits::lemma_u32_shr_is_div(a, k);
        assert((n >> k) as int == n as int / p);
        assert((a >> k) as int == a as int / p);
    } else {
        vstd::arithmetic::power2::lemma2_to64();
        assert(p == 0x1_0000_0000);
        assert(n as int / p == 0 && a as int / p == 0);
    }
}

/// An IPv6 address is in an IPv6 network exactly where both lie in the same block of
/// addresses of that size; an empty prefix covers all.
pub proof fn law_wide_networks_are_blocks(m: u128, b: u128, prefix: u32)
    requires
        prefix <= 128,
    ensures
        crate::address::in_network(IpAddr::V6(m), prefix, IpAddr::V6(b)) <==> prefix
            == 0 || m as int
            / vstd::arithmetic::power2::pow2((128 - prefix) as nat) as int == b as int
            / vstd::arithmetic::power2::pow2((128 - prefix) as nat) as int,
{
    if prefix > 0 {
        let k = (128 - prefix) as u32;
        lemma_wide_shift(m, k);
        lemma_wide_shift(b, k);
    }
}

proof fn lemma_wide_shift(x: u128, k: u32)
    requires
        k < 128,
    ensures
        (x >> k) as int == x as int / vstd::arithmetic::power2::pow2(k as nat) as int,
{
    let j = k as u128;
    vstd::bits::lemma_u128_shr_is_div(x, j);
    assert(x >> k == x >> j);
}

/// A flow is a pod's where one of its ends lies in a network; it is named by that end, the
/// lower one where both do.
pub proof fn law_flows_belong_to_their_pods(
    cidrs: Seq<(IpAddr, u32)>,
    key: crate::types::FlowKey,
    i: int,
)
    ensures
        0 <= i < cidrs.len() && crate::address::in_network(cidrs[i].0, cidrs[i].1, key.low.ip)
            ==> attribution::pod_text(cidrs, key) == Some(key.low.ip.text()),
        0 <= i < cidrs.len() && crate::address::in_network(cidrs[i].0, cidrs[i].1, key.high.ip)
            ==> attribution::pod_text(cidrs, key) == Some(key.high.ip.text())
            || attribution::pod_text(cidrs, key) == Some(key.low.ip.text()),
        (forall|j: int|
            0 <= j < cidrs.len() ==> !crate::address::in_network(
                (#[trigger] cidrs[j]).0,
                cidrs[j].1,
                key.low.ip,
            )) ==> (attribution::pod_text(cidrs, key) == (if attribution::covered(
            cidrs,
            key.high.ip,
        ) {
            Some(key.high.ip.text())
        } else {
            None
        })),
        (forall|j: int|
            0 <= j < cidrs.len() ==> !crate::address::in_network(
                (#[trigger] cidrs[j]).0,
                cidrs[j].1,
                key.low.ip,
            ) && !crate::address::in_network(cidrs[j].0, cidrs[j].1, key.high.ip))
            ==> attribution::pod_text(cidrs, key) is None,
{
}

// ---------------------------------------------------------------------------
// Lists
// ---------------------------------------------------------------------------

/// The entry of a list `k=v,k=v` that gives a key its value.
pub open spec fn pair_entry(k: Seq<char>, v: Seq<char>) -> Seq<char> {
    k + seq!['='] + v
}

/// A key and a value that can stand in a list of pairs.
pub open spec fn is_pair(k: Seq<char>, v: Seq<char>) -> bool {
    &&& is_tight(k)
    &&& !k.contains('=')
    &&& !k.contains(',')
    &&& v.len() == 0 || is_tight(v)
    &&& !v.contains(',')
}

proof fn lemma_pair(k: Seq<char>, v: Seq<char>)
    requires
        is_pair(k, v),
    ensures
        text::cut_first(pair_entry(k, v), '=') == Some((k, v)),
        text::trimmed(k) == k,
        text::trimmed(v) == v,
        !pair_entry(k, v).contains(','),
{
    let e = pair_entry(k, v);
    let n = k.len() as int;
    assert forall|j: int| 0 <= j < n implies e[j] != '=' by {
        assert(e[j] == k[j]);
        assert(k.contains(k[j]));
    }
    lemma_first_at_is(e, '=', n);
    assert(e.take(n) =~= k);
    assert(e.skip(n + 1) =~= v);
    lemma_tight_is_trimmed(k);
    lemma_tight_is_trimmed(v);
    if e.contains(',') {
        let j = choose|j: int| 0 <= j < e.len() && e[j] == ',';
        if j < n {
            assert(k[j] == ',');
        } else if j > n {
            assert(v[j - n - 1] == ',');
        }
    }
}

proof fn lemma_attribute_first(e: Seq<char>, es: Seq<Seq<char>>, n: nat)
    requires
        n <= es.len(),
    ensures
        cli::kv_values(seq![e] + es, n + 1) == cli::kv_values(seq![e], 1) + cli::kv_values(es, n),
    decreases n,
{
    let all = seq![e] + es;
    assert(all[0] == e);
    if n == 0 {
        assert(cli::kv_values(all, 0) == Seq::<(Seq<char>, Seq<char>)>::empty());
        assert(cli::kv_values(seq![e], 0) == Seq::<(Seq<char>, Seq<char>)>::empty());
        assert(cli::kv_values(es, 0) == Seq::<(Seq<char>, Seq<char>)>::empty());
        assert(cli::kv_values(all, 1) =~= cli::kv_values(seq![e], 1) + cli::kv_values(es, 0));
    } else {
        lemma_attribute_first(e, es, (n - 1) as nat);
        assert(all[n as int] == es[n - 1]);
        assert(cli::kv_values(all, n + 1) =~= cli::kv_values(seq![e], 1) + cli::kv_values(es, n));
    }
}

/// A list of pairs is read pair by pair, in order.
pub proof fn law_attribute_lists_are_read(k: Seq<char>, v: Seq<char>, rest: Seq<char>)
    requires
        is_pair(k, v),
    ensures
        cli::kv_list(pair_entry(k, v)) == seq![(k, v)],
        cli::kv_list(pair_entry(k, v) + seq![','] + rest) == seq![(k, v)] + cli::kv_list(rest),
{
    let e = pair_entry(k, v);
    lemma_pair(k, v);
    text::lemma_split_whole(e, ',');
    text::lemma_split_step(e, ',', rest);
    let es = text::split_on(rest, ',');
    lemma_attribute_first(e, es, es.len());
    assert(cli::kv_values(seq![e], 0) == Seq::<(Seq<char>, Seq<char>)>::empty());
    assert(cli::kv_values(seq![e], 1) =~= seq![(k, v)]);
}

proof fn lemma_header_first(e: Seq<char>, es: Seq<Seq<char>>, n: nat)
    requires
        n <= es.len(),
    ensures
        otlp::header_values(seq![e] + es, n + 1) == otlp::header_values(seq![e], 1)
            + otlp::header_values(es, n),
    decreases n,
{
    let all = seq![e] + es;
    assert(all[0] == e);
    if n == 0 {
        assert(otlp::header_values(all, 0) == Seq::<(Seq<char>, Seq<char>)>::empty());
        assert(otlp::header_values(seq![e], 0) == Seq::<(Seq<char>, Seq<char>)>::empty());
        assert(otlp::header_values(es, 0) == Seq::<(Seq<char>, Seq<char>)>::empty());
        assert(otlp::header_values(all, 1) =~= otlp::header_values(seq![e], 1)
            + otlp::header_values(es, 0));
    } else {
        lemma_header_first(e, es, (n - 1) as nat);
        assert(all[n as int] == es[n - 1]);
        assert(otlp::header_values(all, n + 1) =~= otlp::header_values(seq![e], 1)
            + otlp::header_values(es, n));
    }
}

/// A list of pairs is read pair by pair, in order.
pub proof fn law_header_lists_are_read(k: Seq<char>, v: Seq<char>, rest: Seq<char>)
    requires
        is_pair(k, v),
    ensures
        otlp::header_list(pair_entry(k, v)) == seq![(k, v)],
        otlp::header_list(pair_entry(k, v) + seq![','] + rest) == seq![(k, v)]
            + otlp::header_list(rest),
{
    let e = pair_entry(k, v);
    lemma_pair(k, v);
    text::lemma_split_whole(e, ',');
    text::lemma_split_step(e, ',', rest);
    let es = text::split_on(rest, ',');
    lemma_header_first(e, es, es.len());
    assert(otlp::header_values(seq![e], 0) == Seq::<(Seq<char>, Seq<char>)>::empty());
    assert(otlp::header_values(seq![e], 1) =~= seq![(k, v)]);
}

proof fn lemma_network_first(e: Seq<char>, es: Seq<Seq<char>>, n: nat)
    requires
        n <= es.len(),
    ensures
        attribution::cidr_values(seq![e] + es, n + 1) == attribution::cidr_values(seq![e], 1)
            + attribution::cidr_values(es, n),
    decreases n,
{
    let all = seq![e] + es;
    assert(all[0] == e);
    if n == 0 {
        assert(attribution::cidr_values(all, 0) == Seq::<(IpAddr, u32)>::empty());
        assert(attribution::cidr_values(seq![e], 0) == Seq::<(IpAddr, u32)>::empty());
        assert(attribution::cidr_values(es, 0) == Seq::<(IpAddr, u32)>::empty());
        assert(attribution::cidr_values(all, 1) =~= attribution::cidr_values(seq![e], 1)
            + attribution::cidr_values(es, 0));
    } else {
        lemma_network_first(e, es, (n - 1) as nat);
        assert(all[n as int] == es[n - 1]);
        assert(attribution::cidr_values(all, n + 1) =~= attribution::cidr_values(seq![e], 1)
            + attribution::cidr_values(es, n));
    }
}

/// A list of networks is read network by network, in order; what is none is skipped.
pub proof fn law_network_lists_are_read(e: Seq<char>, rest: Seq<char>)
    requires
        !e.contains(','),
    ensures
        attribution::cidr_list(e + seq![','] + rest) == (match attribution::cidr_value(e) {
            Some(c) => seq![c],
            None => Seq::empty(),
        }) + attribution::cidr_list(rest),
{
    text::lemma_split_step(e, ',', rest);
    let es = text::split_on(rest, ',');
    lemma_network_first(e, es, es.len());
    assert(attribution::cidr_values(seq![e], 0) == Seq::<(IpAddr, u32)>::empty());
    assert(attribution::cidr_values(seq![e], 1) =~= (match attribution::cidr_value(e) {
        Some(c) => seq![c],
        None => Seq::empty(),
    }));
}

// ---------------------------------------------------------------------------
// Posting
// ---------------------------------------------------------------------------

/// The head of a request that posts JSON of some length to a path on a host.
pub open spec fn is_post(s: Seq<char>, t: TargetView, extra: Seq<char>, body: Seq<char>) -> bool {
    exists|n: Seq<char>, p: Seq<char>|
        #![trigger text::dec_value(n), text::dec_value(p)]
        {
            &&& n.len() > 0
            &&& text::all_digits(n)
            &&& text::dec_value(n) == vstd::utf8::encode_utf8(body).len()
            &&& p.len() > 0
            &&& text::all_digits(p)
            &&& text::dec_value(p) == t.port
            &&& s == "POST "@ + t.path + " HTTP/1.1\r\n"@ + "Host: "@ + t.host + ":"@ + p + "\r\n"@
                + "Content-Type: application/json\r\n"@ + "Content-Length: "@ + n + "\r\n"@ + extra
                + "Connection: close\r\n\r\n"@
        }
}

/// A body is posted to the target's path and host, with its length in bytes and the
/// target's own headers.
pub proof fn law_bodies_are_posted(t: TargetView, body: Seq<char>)
    ensures
        is_post(
            otlp::request_text(t, body),
            t,
            otlp::header_lines(t.headers, t.headers.len()),
            body,
        ),
{
    let n = text::dec_text(vstd::utf8::encode_utf8(body).len());
    let p = text::dec_text(t.port as nat);
    text::lemma_dec_text_value(vstd::utf8::encode_utf8(body).len());
    text::lemma_dec_text_value(t.port as nat);
    assert(text::dec_value(n) == vstd::utf8::encode_utf8(body).len() && text::dec_value(p)
        == t.port);
}

/// Every header with a name stands on a line of its own, in order; one without a name
/// stands on none.
pub proof fn law_headers_are_sent(
    headers: Seq<(Seq<char>, Seq<char>)>,
    k: Seq<char>,
    v: Seq<char>,
)
    ensures
        otlp::header_lines(Seq::empty(), 0) == Seq::<char>::empty(),
        otlp::header_lines(headers.push((k, v)), headers.len() + 1) == otlp::header_lines(
            headers,
            headers.len(),
        ) + (if k.len() == 0 {
            Seq::empty()
        } else {
            k + ": "@ + v + "\r\n"@
        }),
{
    lemma_same_lines(headers, headers.push((k, v)), headers.len());
    let before = otlp::header_lines(headers, headers.len());
    assert(headers.push((k, v))[headers.len() as int] == (k, v));
    if k.len() > 0 {
        assert(before + k + ": "@ + v + "\r\n"@ =~= before + (k + ": "@ + v + "\r\n"@));
    } else {
        assert(before + Seq::<char>::empty() =~= before);
    }
}

proof fn lemma_same_lines(
    a: Seq<(Seq<char>, Seq<char>)>,
    b: Seq<(Seq<char>, Seq<char>)>,
    n: nat,
)
    requires
        n <= a.len(),
        n <= b.len(),
        forall|i: int| 0 <= i < n ==> a[i] == b[i],
    ensures
        otlp::header_lines(a, n) == otlp::header_lines(b, n),
    decreases n,
{
    if n > 0 {
        lemma_same_lines(a, b, (n - 1) as nat);
    }
}

/// The name of the service comes first among the resource's attributes; those that the
/// environment and the configuration give follow.
pub proof fn law_resource_names_the_service(cfg: OtlpView, env: Seq<(Seq<char>, Seq<char>)>)
    ensures
        cli::resource_attrs(cfg, env).len() >= 1,
        cli::resource_attrs(cfg, env)[0] == ("service.name"@, cfg.service_name),
        forall|i: int|
            0 <= i < cli::kv_list(cfg.resource_attributes).len() ==> cli::resource_attrs(
                cfg,
                env,
            ).contains(#[trigger] cli::kv_list(cfg.resource_attributes)[i]),
{
    let all = cli::resource_attrs(cfg, env);
    let kv = cli::kv_list(cfg.resource_attributes);
    let n = 1 + cli::env_attributes(env, cli::env_map().len()).len() as int;
    assert forall|i: int| 0 <= i < kv.len() implies all.contains(#[trigger] kv[i]) by {
        assert(all[n + i] == kv[i]);
    }
}

/// A well-known variable that is set and not empty gives the resource its attribute.
pub proof fn law_environment_describes_the_resource(
    cfg: OtlpView,
    env: Seq<(Seq<char>, Seq<char>)>,
    i: int,
)
    requires
        0 <= i < 7,
    ensures
        ({
            let (name, key) = seq![
                ("HOSTNAME"@, "host.name"@),
                ("K8S_NODE_NAME"@, "k8s.node.name"@),
                ("NODE_NAME"@, "k8s.node.name"@),
                ("K8S_CLUSTER_NAME"@, "k8s.cluster.name"@),
                ("CLOUD_PROVIDER"@, "cloud.provider"@),
                ("CLOUD_REGION"@, "cloud.region"@),
                ("CLOUD_ACCOUNT_ID"@, "cloud.account.id"@),
            ][i];
            match cli::env_value(env, name) {
                Some(v) => v.len() > 0 ==> cli::resource_attrs(cfg, env).contains((key, v)),
                None => true,
            }
        }),
{
    let (name, key) = cli::env_map()[i];
    if let Some(v) = cli::env_value(env, name) {
        if v.len() > 0 {
            lemma_env_attribute(env, i, 7);
            let e = cli::env_attributes(env, 7);
            let k = choose|k: int| 0 <= k < e.len() && e[k] == (key, v);
            assert(cli::env_map().len() == 7);
            assert(cli::resource_attrs(cfg, env)[1 + k] == (key, v));
        }
    }
}

proof fn lemma_env_attribute(env: Seq<(Seq<char>, Seq<char>)>, i: int, n: nat)
    requires
        0 <= i < n <= 7,
        cli::env_value(env, cli::env_map()[i].0) is Some,
        (cli::env_value(env, cli::env_map()[i].0)->0).len() > 0,
    ensures
        cli::env_attributes(env, n).contains(
            (cli::env_map()[i].1, cli::env_value(env, cli::env_map()[i].0)->0),
        ),
    decreases n,
{
    let pair = (cli::env_map()[i].1, cli::env_value(env, cli::env_map()[i].0)->0);
    let e = cli::env_attributes(env, n);
    let before = cli::env_attributes(env, (n - 1) as nat);
    if i == n - 1 {
        assert(e[before.len() as int] == pair);
    } else {
        lemma_env_attribute(env, i, (n - 1) as nat);
        let k = choose|k: int| 0 <= k < before.len() && before[k] == pair;
        assert(e[k] == pair);
    }
}

/// A variable has the value of its first entry in the environment.
pub proof fn law_variables_are_found(
    env: Seq<(Seq<char>, Seq<char>)>,
    name: Seq<char>,
    i: int,
)
    requires
        0 <= i < env.len(),
        env[i].0 == name,
        forall|j: int| 0 <= j < i ==> (#[trigger] env[j]).0 != name,
    ensures
        cli::env_value(env, name) == Some(env[i].1),
    decreases env.len(),
{
    if i > 0 {
        let rest = env.skip(1);
        assert(rest[i - 1] == env[i]);
        assert forall|j: int| 0 <= j < i - 1 implies (#[trigger] rest[j]).0 != name by {
            assert(rest[j] == env[j + 1]);
        }
        law_variables_are_found(rest, name, i - 1);
        assert(env[0].0 != name);
    }
}

// ---------------------------------------------------------------------------
// Configuration texts
// ---------------------------------------------------------------------------

/// A configuration is read line by line: a section counts from its line on, a setting
/// takes effect in the section it stands in, and a line that says nothing changes nothing. A
/// line that is no setting, or whose setting is refused, fails the text and is named by its
/// number, counted from one.
pub proof fn law_configuration_is_read_line_by_line(
    c: ConfigView,
    section: Seq<char>,
    lines: Seq<Seq<char>>,
    at: nat,
)
    ensures
        at >= lines.len() ==> config::config_from(c, section, lines, at) == Ok::<
            ConfigView,
            Failure,
        >(c),
        at < lines.len() ==> match config::line_meaning(lines[at as int]) {
            Line::Blank => config::config_from(c, section, lines, at) == config::config_from(
                c,
                section,
                lines,
                at + 1,
            ),
            Line::Section(name) => config::config_from(c, section, lines, at)
                == config::config_from(c, name, lines, at + 1),
            Line::Setting(key, val) => match config::config_with(c, section, key, val) {
                Ok(next) => config::config_from(c, section, lines, at) == config::config_from(
                    next,
                    section,
                    lines,
                    at + 1,
                ),
                Err(e) => config::config_from(c, section, lines, at) == Err::<ConfigView, Failure>(
                    Failure::Config("line "@ + text::dec_text(at + 1) + ": "@ + e.text()),
                ),
            },
            Line::Malformed => config::config_from(c, section, lines, at) == Err::<
                ConfigView,
                Failure,
            >(Failure::Config("line "@ + text::dec_text(at + 1) + ": expected key = value"@)),
        },
{
    reveal_strlit(": ");
    reveal_strlit("expected key = value");
    reveal_strlit(": expected key = value");
    let n = text::dec_text(at + 1);
    assert("line "@ + n + ": "@ + "expected key = value"@ =~= "line "@ + n
        + ": expected key = value"@);
}

/// A text starts from the defaults, outside any section, and its lines end at line breaks.
pub proof fn law_configuration_starts_from_the_defaults(first: Seq<char>, rest: Seq<char>)
    requires
        !first.contains('\n'),
    ensures
        config::config_value(first + seq!['\n'] + rest) == config::config_from(
            ConfigView::defaults(),
            Seq::empty(),
            seq![first] + text::split_on(rest, '\n'),
            0,
        ),
        config::config_value(Seq::empty()) == Ok::<ConfigView, Failure>(ConfigView::defaults()),
{
    text::lemma_split_step(first, '\n', rest);
    let none = Seq::<char>::empty();
    text::lemma_split_whole(none, '\n');
    let lines = seq![none];
    lemma_gap_no_hash(none);
    lemma_uncommented(none, none);
    assert(none + none =~= none);
    lemma_tight_is_trimmed(none);
    law_configuration_is_read_line_by_line(ConfigView::defaults(), none, lines, 0);
    law_configuration_is_read_line_by_line(ConfigView::defaults(), none, lines, 1);
}

/// A sign and an exponent are read as what they write.
pub proof fn law_signed_and_scaled_numbers_are_read(a: Seq<char>, e: Seq<char>)
    requires
        a.len() > 0,
        text::all_digits(a),
        e.len() > 0,
        text::all_digits(e),
        text::dec_value(e) <= 1_000_000_000_000,
    ensures
        number::number_value(seq!['-'] + a) == Some(
            Threshold::Finite { negative: true, mantissa: text::dec_value(a), exponent: 0 },
        ),
        number::number_value(seq!['+'] + a) == Some(
            Threshold::Finite { negative: false, mantissa: text::dec_value(a), exponent: 0 },
        ),
        number::number_value(a + seq!['e'] + e) == Some(
            Threshold::Finite {
                negative: false,
                mantissa: text::dec_value(a),
                exponent: text::dec_value(e) as int,
            },
        ),
        number::number_value(a + seq!['e'] + (seq!['-'] + e)) == Some(
            Threshold::Finite {
                negative: false,
                mantissa: text::dec_value(a),
                exponent: -(text::dec_value(e) as int),
            },
        ),
{
    let none = Seq::<char>::empty();
    law_decimal_numbers_are_read(a, none);
    assert('0' <= a[0] <= '9');
    assert('0' <= e[0] <= '9');
    assert((seq!['-'] + a).skip(1) =~= a);
    assert((seq!['+'] + a).skip(1) =~= a);
    assert(number::without_sign(a) == a);
    lemma_scaled(a, e);
    lemma_scaled(a, seq!['-'] + e);
    assert((seq!['-'] + e).skip(1) =~= e);
}

proof fn lemma_scaled(a: Seq<char>, e: Seq<char>)
    requires
        a.len() > 0,
        text::all_digits(a),
        e.len() > 0,
    ensures
        number::number_value(a + seq!['e'] + e) == (match number::exponent_value(e) {
            Some(n) => Some(
                Threshold::Finite {
                    negative: false,
                    mantissa: text::dec_value(a),
                    exponent: n,
                },
            ),
            None => None,
        }),
{
    reveal_strlit("inf");
    reveal_strlit("infinity");
    reveal_strlit("nan");
    let s = a + seq!['e'] + e;
    let n = a.len() as int;
    assert('0' <= a[0] <= '9');
    assert(s[0] == a[0]);
    lemma_word_differs(s, "inf"@);
    lemma_word_differs(s, "infinity"@);
    lemma_word_differs(s, "nan"@);
    assert forall|j: int| 0 <= j < n implies s[j] != 'e' && s[j] != 'E' && a[j] != '.' by {
        assert('0' <= a[j] <= '9');
        assert(s[j] == a[j]);
    }
    lemma_first_at_is(s, 'e', n);
    text::lemma_first_at(s, 'E');
    assert(text::first_at(s, 'E') >= n) by {
        let k = text::first_at(s, 'E');
        if k < n {
            assert(s[k] == 'E');
        }
    }
    assert(s.take(n) =~= a);
    assert(s.skip(n + 1) =~= e);
    lemma_first_at_is(a, '.', n);
}

// ---------------------------------------------------------------------------
// Targets
// ---------------------------------------------------------------------------

/// Events go to the standard output or error where the target says so, nowhere where it is
/// empty, `off` or `none`, and else to the file of that path.
pub proof fn law_targets_are_read(path: Seq<char>)
    requires
        is_tight(path),
        path != "off"@,
        path != "none"@,
        path != "stdout"@,
        path != "stderr"@,
    ensures
        sink::sink_value(path) == SinkView::File(path),
        sink::sink_value("stdout"@) == SinkView::Stdout,
        sink::sink_value("stderr"@) == SinkView::Stderr,
        sink::sink_value("off"@) == SinkView::Off,
        sink::sink_value("none"@) == SinkView::Off,
        sink::sink_value(Seq::empty()) == SinkView::Off,
{
    reveal_strlit("off");
    reveal_strlit("none");
    reveal_strlit("stdout");
    reveal_strlit("stderr");
    lemma_tight_is_trimmed(path);
    lemma_tight_is_trimmed("off"@);
    lemma_tight_is_trimmed("none"@);
    lemma_tight_is_trimmed("stdout"@);
    lemma_tight_is_trimmed("stderr"@);
    lemma_tight_is_trimmed(Seq::empty());
    assert("off"@.len() == 3 && "none"@.len() == 4);
    assert("stdout"@.len() == 6 && "stdout"@[3] == 'o');
    assert("stderr"@.len() == 6 && "stderr"@[3] == 'e');
}

/// The default command captures on the named interface, or on any, writes what it captures
/// to its standard output, and passes the filter on: word by word to tcpdump, as one
/// argument to tshark.
pub proof fn law_default_commands(iface: Seq<char>, filter: Seq<char>)
    ensures
        ({
            let unix = capture::default_argv(iface, filter, false);
            let windows = capture::default_argv(iface, filter, true);
            let on = if iface.len() == 0 {
                "any"@
            } else {
                iface
            };
            &&& unix[0] == "tcpdump"@
            &&& unix[1] == "-i"@
            &&& unix[2] == on
            &&& unix[3] == "-w"@
            &&& unix[4] == "-"@
            &&& unix.skip(9) == text::words(filter)
            &&& windows[0] == "tshark"@
            &&& windows[1] == "-i"@
            &&& windows[2] == on
            &&& windows[3] == "-w"@
            &&& windows[4] == "-"@
            &&& filter.len() == 0 ==> windows.len() == 9
            &&& filter.len() > 0 ==> windows.skip(9) == seq!["-f"@, filter]
        }),
{
    let unix = capture::default_argv(iface, filter, false);
    let windows = capture::default_argv(iface, filter, true);
    assert(unix.skip(9) =~= text::words(filter));
    if filter.len() > 0 {
        assert(windows.skip(9) =~= seq!["-f"@, filter]);
    }
}

/// Each backend opens what it names: the script; the file at the path, which must be given;
/// the capture command, the configured one where there is one; the kernel program on the
/// interface, where that is built in.
pub proof fn law_backends_open_their_sources(cfg: CaptureView, platform: capture::Platform)
    ensures
        ({
            let r = capture::opening(cfg, platform);
            &&& cfg.backend == Backend::Synthetic ==> r == Ok::<OpeningView, Failure>(
                OpeningView::Synthetic,
            )
            &&& cfg.backend == Backend::PcapFile && is_tight(cfg.pcap_path) ==> r == Ok::<
                OpeningView,
                Failure,
            >(
                OpeningView::PcapFile {
                    name: "pcap_file:"@ + cfg.pcap_path,
                    path: cfg.pcap_path,
                },
            )
            &&& cfg.backend == Backend::PcapFile && is_gap(cfg.pcap_path) ==> r is Err
            &&& cfg.backend == Backend::Live && is_gap(cfg.live_command) ==> {
                let argv = capture::default_argv(cfg.interface, cfg.filter, platform.windows);
                r == Ok::<OpeningView, Failure>(
                    OpeningView::Live { name: "live:"@ + argv[0], argv },
                )
            }
            &&& cfg.backend == Backend::Live && is_tight(cfg.live_command) ==> {
                let argv = text::words(cfg.live_command);
                r == Ok::<OpeningView, Failure>(
                    OpeningView::Live { name: "live:"@ + argv[0], argv },
                )
            }
            &&& cfg.backend == Backend::Ebpf && !platform.ebpf ==> r is Err
            &&& cfg.backend == Backend::Ebpf && platform.ebpf && is_tight(cfg.interface) ==> r
                == Ok::<
                OpeningView,
                Failure,
            >(OpeningView::Ebpf { name: "ebpf:"@ + cfg.interface, iface: cfg.interface })
            &&& cfg.backend == Backend::Etw ==> r is Err
        }),
{
    let none = Seq::<char>::empty();
    if is_gap(cfg.pcap_path) {
        lemma_trimmed(cfg.pcap_path, none, none);
        assert(cfg.pcap_path + none + none =~= cfg.pcap_path);
    }
    if is_gap(cfg.live_command) {
        lemma_trimmed(cfg.live_command, none, none);
        assert(cfg.live_command + none + none =~= cfg.live_command);
    }
    if is_tight(cfg.pcap_path) {
        lemma_tight_is_trimmed(cfg.pcap_path);
    }
    if is_tight(cfg.interface) {
        lemma_tight_is_trimmed(cfg.interface);
    }
    if is_tight(cfg.live_command) {
        lemma_tight_is_trimmed(cfg.live_command);
        let w = text::word_len(cfg.live_command);
        text::lemma_word_len(cfg.live_command);
        assert(text::words(cfg.live_command) == seq![cfg.live_command.take(w)] + text::words(
            cfg.live_command.skip(w),
        ));
    }
}

} // verus!
