//! OTLP/HTTP metrics export using JSON encoding: where to post, what to post, and what the
//! collector's answer means.
//!
//! The OpenTelemetry protocol supports JSON over HTTP (`Content-Type: application/json`,
//! POST to `/v1/metrics`), so metrics can go to any OTel Collector without protobuf or gRPC
//! libraries. TLS is intentionally out of scope for the agent: point `endpoint` at a
//! node-local Collector over HTTP and let the Collector handle TLS/auth to the cloud
//! backend (the standard pattern).

use vstd::prelude::*;
use vstd::slice::slice_subrange;
use vstd::utf8;

use crate::config::{OtlpConfig, OtlpView};
use crate::error::{Error, Failure};
use crate::json;
use crate::json::Object;
use crate::metrics::{MetricsSnapshot, MetricsView};
use crate::number::Ratio;
use crate::shortest;
use crate::series::SeriesView;
use crate::text;

verus! {

/// The port that OTLP/HTTP collectors listen on.
pub const DEFAULT_PORT: u16 = 4318;

// ---------------------------------------------------------------------------
// Target
// ---------------------------------------------------------------------------

/// Where metrics are posted.
#[derive(Clone, Debug)]
pub struct Target {
    pub host: String,
    pub port: u16,
    pub path: String,
    pub headers: Vec<(String, String)>,
}

/// A [`Target`] with its texts.
#[verifier::ext_equal]
pub ghost struct TargetView {
    pub host: Seq<char>,
    pub port: u16,
    pub path: Seq<char>,
    pub headers: Seq<(Seq<char>, Seq<char>)>,
}

/// The texts of a list of pairs.
pub open spec fn pair_texts(v: Seq<(String, String)>) -> Seq<(Seq<char>, Seq<char>)> {
    v.map_values(|p: (String, String)| (p.0@, p.1@))
}

impl View for Target {
    type V = TargetView;

    open spec fn view(&self) -> TargetView {
        TargetView {
            host: self.host@,
            port: self.port,
            path: self.path@,
            headers: pair_texts(self.headers@),
        }
    }
}

/// The headers that the first `n` entries write as `name=value`, in order; entries without
/// `=` are skipped.
pub open spec fn header_values(entries: Seq<Seq<char>>, n: nat) -> Seq<(Seq<char>, Seq<char>)>
    decreases n,
{
    if n == 0 {
        Seq::empty()
    } else {
        let before = header_values(entries, (n - 1) as nat);
        match text::cut_first(entries[n - 1], '=') {
            Some((k, v)) => before.push((text::trimmed(k), text::trimmed(v))),
            None => before,
        }
    }
}

/// The headers of a comma-separated list.
pub open spec fn header_list(s: Seq<char>) -> Seq<(Seq<char>, Seq<char>)> {
    let entries = text::split_on(s, ',');
    header_values(entries, entries.len())
}

/// The host and port of an endpoint without its scheme.
pub open spec fn authority(rest: Seq<char>) -> (Seq<char>, u16) {
    let a = rest.take(text::first_at(rest, '/'));
    match text::cut_last(a, ':') {
        Some((host, port)) => (
            host,
            match text::unsigned_value(port, u16::MAX as nat) {
                Some(n) => n as u16,
                None => DEFAULT_PORT,
            },
        ),
        None => (a, DEFAULT_PORT),
    }
}

/// The target that a configuration describes.
pub open spec fn target_value(cfg: OtlpView) -> Result<TargetView, Failure> {
    let ep = text::trimmed(cfg.endpoint);
    if !text::has_prefix(ep, "http://"@) && text::has_prefix(ep, "https://"@) {
        Err(
            Failure::Config(
                "otlp endpoint must be http:// (run a node-local Collector for TLS/cloud)"@,
            ),
        )
    } else {
        let rest = if text::has_prefix(ep, "http://"@) {
            ep.skip(7)
        } else {
            ep
        };
        let (host, port) = authority(rest);
        if host.len() == 0 {
            Err(Failure::Config("otlp endpoint has no host"@))
        } else {
            Ok(TargetView { host, port, path: cfg.path, headers: header_list(cfg.headers) })
        }
    }
}

/// An `https://` endpoint is rejected.
pub proof fn law_https_is_rejected(cfg: OtlpView)
    requires
        text::has_prefix(text::trimmed(cfg.endpoint), "https://"@),
    ensures
        target_value(cfg) is Err,
{
    let ep = text::trimmed(cfg.endpoint);
    reveal_strlit("http://");
    reveal_strlit("https://");
    assert(ep.take(8)[4] == 's');
    if text::has_prefix(ep, "http://"@) {
        assert(ep.take(7)[4] == ':');
    }
}

/// The seconds between two pushes: at least one.
pub fn push_interval(secs: u64) -> (r: u64)
    ensures
        r == (if secs == 0 {
            1
        } else {
            secs
        }),
{
    if secs == 0 {
        1
    } else {
        secs
    }
}

/// Where to post, from the configuration.
pub fn parse_target(cfg: &OtlpConfig) -> (r: Result<Target, Error>)
    ensures
        match r {
            Ok(t) => target_value(cfg@) == Ok::<TargetView, Failure>(t@),
            Err(e) => target_value(cfg@) == Err::<TargetView, Failure>(e@),
        },
{
    let endpoint = text::chars_of(cfg.endpoint.as_str());
    let ep = text::trim(endpoint.as_slice());
    let rest: &[char] = if text::starts_with(ep, "http://") {
        proof {
            reveal_strlit("http://");
        }
        slice_subrange(ep, 7, ep.len())
    } else if text::starts_with(ep, "https://") {
        return Err(
            Error::Config(
                "otlp endpoint must be http:// (run a node-local Collector for TLS/cloud)".to_owned(),
            ),
        );
    } else {
        ep
    };
    // authority[/ignored-path]
    let end: usize = text::find(rest, '/');
    let a = slice_subrange(rest, 0, end);
    assert(a@ =~= rest@.take(end as int));
    let (host, port) = match text::rsplit_once(a, ':') {
        Some((h, p)) => (
            h,
            match text::parse_unsigned(p, u16::MAX as u64) {
                Some(n) => n as u16,
                None => DEFAULT_PORT,
            },
        ),
        None => (a, DEFAULT_PORT),
    };
    if host.len() == 0 {
        return Err(Error::Config("otlp endpoint has no host".to_owned()));
    }
    let headers = parse_headers(cfg.headers.as_str());
    let t = Target { host: text::string_of(host), port, path: cfg.path.clone(), headers };
    assert(t@ =~= (TargetView {
        host: host@,
        port,
        path: cfg.path@,
        headers: header_list(cfg.headers@),
    }));
    Ok(t)
}

fn parse_headers(s: &str) -> (r: Vec<(String, String)>)
    ensures
        pair_texts(r@) == header_list(s@),
{
    let chars = text::chars_of(s);
    let entries = text::split(chars.as_slice(), ',');
    let ghost all = text::split_on(s@, ',');
    let mut r: Vec<(String, String)> = Vec::new();
    let mut i: usize = 0;
    assert(pair_texts(r@) =~= Seq::empty());
    while i < entries.len()
        invariant
            i <= entries@.len(),
            text::texts(entries@) == all,
            pair_texts(r@) == header_values(all, i as nat),
        decreases entries@.len() - i,
    {
        let ghost before = r@;
        assert(text::texts(entries@)[i as int] == entries@[i as int]@);
        if let Some((k, v)) = text::split_once(entries[i], '=') {
            r.push((text::string_of(text::trim(k)), text::string_of(text::trim(v))));
            assert(pair_texts(r@) =~= pair_texts(before).push(
                (text::trimmed(k@), text::trimmed(v@)),
            ));
        }
        i = i + 1;
    }
    r
}

// ---------------------------------------------------------------------------
// Request and response
// ---------------------------------------------------------------------------

/// The first `n` header lines; headers without a name are left out.
pub open spec fn header_lines(headers: Seq<(Seq<char>, Seq<char>)>, n: nat) -> Seq<char>
    decreases n,
{
    if n == 0 {
        Seq::empty()
    } else {
        let before = header_lines(headers, (n - 1) as nat);
        let (k, v) = headers[n - 1];
        if k.len() == 0 {
            before
        } else {
            before + k + ": "@ + v + "\r\n"@
        }
    }
}

/// The head of the request that posts a body.
pub open spec fn request_text(t: TargetView, body: Seq<char>) -> Seq<char> {
    "POST "@ + t.path + " HTTP/1.1\r\n"@ + "Host: "@ + t.host + ":"@ + text::dec_text(t.port as nat)
        + "\r\n"@ + "Content-Type: application/json\r\n"@ + "Content-Length: "@ + text::dec_text(
        utf8::encode_utf8(body).len(),
    ) + "\r\n"@ + header_lines(t.headers, t.headers.len()) + "Connection: close\r\n\r\n"@
}

/// The head of the request that posts `body`; the body follows it.
pub fn request_head(t: &Target, body: &str) -> (s: String)
    ensures
        s@ == request_text(t@, body@),
{
    let mut s = "POST ".to_owned();
    s.append(t.path.as_str());
    s.append(" HTTP/1.1\r\n");
    s.append("Host: ");
    s.append(t.host.as_str());
    s.append(":");
    s.append(text::decimal(t.port as u128).as_str());
    s.append("\r\n");
    s.append("Content-Type: application/json\r\n");
    s.append("Content-Length: ");
    s.append(text::decimal(text::byte_len(body) as u128).as_str());
    s.append("\r\n");
    let mut lines = String::new();
    let mut i: usize = 0;
    assert(lines@ =~= header_lines(t@.headers, 0));
    while i < t.headers.len()
        invariant
            i <= t.headers@.len(),
            lines@ == header_lines(t@.headers, i as nat),
        decreases t.headers@.len() - i,
    {
        let (k, v) = &t.headers[i];
        assert(t@.headers[i as int] == (k@, v@));
        let name = text::chars_of(k.as_str());
        if name.len() > 0 {
            lines.append(k.as_str());
            lines.append(": ");
            lines.append(v.as_str());
            lines.append("\r\n");
        }
        i = i + 1;
    }
    s.append(lines.as_str());
    s.append("Connection: close\r\n\r\n");
    s
}

/// The complaint that the start of a collector's response gives rise to: its second word,
/// the status, does not start with `2`.
pub open spec fn response_complaint(response: Seq<char>) -> Option<Seq<char>> {
    let words = text::words(response);
    if words.len() >= 2 && words[1][0] != '2' {
        Some("collector returned HTTP "@ + words[1])
    } else {
        None
    }
}

/// Surfaces 4xx/5xx from the Collector, from the start of its response.
pub fn check_response(response: &str) -> (r: Result<(), String>)
    ensures
        match r {
            Ok(_) => response_complaint(response@) is None,
            Err(e) => response_complaint(response@) == Some(e@),
        },
{
    let chars = text::chars_of(response);
    let words = text::split_whitespace(chars.as_slice());
    assert(text::texts(words@) == text::words(response@));
    if words.len() < 2 {
        return Ok(());
    }
    let status = words[1];
    proof {
        assert(text::texts(words@)[1] == status@);
        text::lemma_words_not_empty(response@, 1);
    }
    if status[0] != '2' {
        let mut s = "collector returned HTTP ".to_owned();
        s.append(text::string_of(status).as_str());
        Err(s)
    } else {
        Ok(())
    }
}

// ---------------------------------------------------------------------------
// Body (OTLP/JSON proto mapping)
// ---------------------------------------------------------------------------

/// A string attribute.
pub open spec fn attribute(key: Seq<char>, val: Seq<char>) -> Seq<char> {
    json::object_text(
        seq![
            ("key"@, json::string_text(key)),
            ("value"@, json::object_text(seq![("stringValue"@, json::string_text(val))])),
        ],
    )
}

/// The attributes that give a series' labels their names.
pub open spec fn label_attributes(names: Seq<Seq<char>>, labels: Seq<Seq<char>>) -> Seq<char> {
    json::list_text(Seq::new(names.len(), |i: int| attribute(names[i], labels[i])))
}

/// A point of a cumulative sum.
pub open spec fn sum_point(value: u64, start_ns: u64, now_ns: u64, attributes: Seq<char>) -> Seq<
    char,
> {
    json::object_text(
        seq![
            ("asInt"@, json::string_text(text::dec_text(value as nat))),
            ("startTimeUnixNano"@, json::string_text(text::dec_text(start_ns as nat))),
            ("timeUnixNano"@, json::string_text(text::dec_text(now_ns as nat))),
            ("attributes"@, attributes),
        ],
    )
}

/// A point of an integer gauge.
pub open spec fn gauge_point(value: u64, now_ns: u64) -> Seq<char> {
    json::object_text(
        seq![
            ("asInt"@, json::string_text(text::dec_text(value as nat))),
            ("timeUnixNano"@, json::string_text(text::dec_text(now_ns as nat))),
            ("attributes"@, json::list_text(Seq::empty())),
        ],
    )
}

/// A point of a fractional gauge.
pub open spec fn rate_point(value: Ratio, now_ns: u64) -> Seq<char> {
    json::object_text(
        seq![
            ("asDouble"@, shortest::plain_text(value.double())),
            ("timeUnixNano"@, json::string_text(text::dec_text(now_ns as nat))),
            ("attributes"@, json::list_text(Seq::empty())),
        ],
    )
}

/// A cumulative, monotonic sum.
pub open spec fn sum_metric(name: Seq<char>, unit: Seq<char>, points: Seq<Seq<char>>) -> Seq<char> {
    json::object_text(
        seq![
            ("name"@, json::string_text(name)),
            ("unit"@, json::string_text(unit)),
            (
                "sum"@,
                json::object_text(
                    seq![
                        ("aggregationTemporality"@, "2"@),
                        ("isMonotonic"@, "true"@),
                        ("dataPoints"@, json::list_text(points)),
                    ],
                ),
            ),
        ],
    )
}

/// A gauge.
pub open spec fn gauge_metric(name: Seq<char>, unit: Seq<char>, point: Seq<char>) -> Seq<char> {
    json::object_text(
        seq![
            ("name"@, json::string_text(name)),
            ("unit"@, json::string_text(unit)),
            (
                "gauge"@,
                json::object_text(seq![("dataPoints"@, json::list_text(seq![point]))]),
            ),
        ],
    )
}

/// The points of a series.
pub open spec fn series_points(
    s: SeriesView,
    names: Seq<Seq<char>>,
    start_ns: u64,
    now_ns: u64,
) -> Seq<Seq<char>> {
    s.map_values(
        |e: (Seq<Seq<char>>, u64)|
            sum_point(e.1, start_ns, now_ns, label_attributes(names, e.0)),
    )
}

/// The metric of a series; none where the series is empty.
pub open spec fn series_metric(
    name: Seq<char>,
    s: SeriesView,
    names: Seq<Seq<char>>,
    start_ns: u64,
    now_ns: u64,
) -> Seq<Seq<char>> {
    if s.len() == 0 {
        Seq::empty()
    } else {
        seq![sum_metric(name, "1"@, series_points(s, names, start_ns, now_ns))]
    }
}

/// The metric that counts packets.
pub open spec fn packets_metric(total: u64, start_ns: u64, now_ns: u64) -> Seq<char> {
    sum_metric(
        "l4scope.packets"@,
        "1"@,
        seq![sum_point(total, start_ns, now_ns, json::list_text(Seq::empty()))],
    )
}

/// The node-level gauges.
pub open spec fn gauges_list(m: MetricsView, now_ns: u64) -> Seq<Seq<char>> {
    seq![
        gauge_metric("l4scope.active_flows"@, "1"@, gauge_point(m.active_flows, now_ns)),
        gauge_metric("l4scope.half_open_max"@, "1"@, gauge_point(m.half_open_max, now_ns)),
        gauge_metric("l4scope.rst_per_second"@, "1/s"@, rate_point(m.rst_per_sec, now_ns)),
        gauge_metric(
            "l4scope.new_flows_per_second"@,
            "1/s"@,
            rate_point(m.new_flow_per_sec, now_ns),
        ),
    ]
}

/// All metrics, in the order they are posted in.
pub open spec fn metrics_list(m: MetricsView, start_ns: u64, now_ns: u64) -> Seq<Seq<char>> {
    seq![packets_metric(m.packets_total, start_ns, now_ns)] + series_metric(
        "l4scope.events"@,
        m.event_counts,
        seq!["l4.kind"@, "severity"@],
        start_ns,
        now_ns,
    ) + series_metric(
        "l4scope.pod.events"@,
        m.pod_event_counts,
        seq!["k8s.pod.ip"@, "l4.kind"@, "severity"@],
        start_ns,
        now_ns,
    ) + series_metric(
        "l4scope.pod.packets"@,
        m.pod_packets,
        seq!["k8s.pod.ip"@],
        start_ns,
        now_ns,
    ) + gauges_list(m, now_ns)
}

/// The attributes of the resource that the metrics are about.
pub open spec fn resource_attributes(attrs: Seq<(Seq<char>, Seq<char>)>) -> Seq<Seq<char>> {
    attrs.map_values(|a: (Seq<char>, Seq<char>)| attribute(a.0, a.1))
}

/// The metrics under the name of what measured them.
pub open spec fn scope_text(metrics: Seq<Seq<char>>) -> Seq<char> {
    json::object_text(
        seq![
            (
                "scope"@,
                json::object_text(
                    seq![
                        ("name"@, json::string_text("l4scope"@)),
                        ("version"@, json::string_text("0.1.0"@)),
                    ],
                ),
            ),
            ("metrics"@, json::list_text(metrics)),
        ],
    )
}

/// A resource with its metrics.
pub open spec fn resource_text(attributes: Seq<Seq<char>>, metrics: Seq<Seq<char>>) -> Seq<char> {
    json::object_text(
        seq![
            (
                "resource"@,
                json::object_text(seq![("attributes"@, json::list_text(attributes))]),
            ),
            ("scopeMetrics"@, json::list_text(seq![scope_text(metrics)])),
        ],
    )
}

/// The body that reports the metrics.
pub open spec fn body_text(
    m: MetricsView,
    attrs: Seq<(Seq<char>, Seq<char>)>,
    start_ns: u64,
    now_ns: u64,
) -> Seq<char> {
    json::object_text(
        seq![
            (
                "resourceMetrics"@,
                json::list_text(
                    seq![
                        resource_text(
                            resource_attributes(attrs),
                            metrics_list(m, start_ns, now_ns),
                        ),
                    ],
                ),
            ),
        ],
    )
}

proof fn lemma_empty_list_is_balanced()
    ensures
        json::is_balanced(json::list_text(Seq::empty())),
{
    json::lemma_list_is_balanced(Seq::empty());
}

proof fn lemma_attribute_is_balanced(key: Seq<char>, val: Seq<char>)
    ensures
        json::is_balanced(attribute(key, val)),
{
    json::lemma_string_is_balanced(key);
    json::lemma_string_is_balanced(val);
    json::lemma_object_is_balanced(seq![("stringValue"@, json::string_text(val))]);
    json::lemma_object_is_balanced(
        seq![
            ("key"@, json::string_text(key)),
            ("value"@, json::object_text(seq![("stringValue"@, json::string_text(val))])),
        ],
    );
}

proof fn lemma_sum_point_is_balanced(value: u64, start_ns: u64, now_ns: u64, attributes: Seq<char>)
    requires
        json::is_balanced(attributes),
    ensures
        json::is_balanced(sum_point(value, start_ns, now_ns, attributes)),
{
    json::lemma_string_is_balanced(text::dec_text(value as nat));
    json::lemma_string_is_balanced(text::dec_text(start_ns as nat));
    json::lemma_string_is_balanced(text::dec_text(now_ns as nat));
    json::lemma_object_is_balanced(
        seq![
            ("asInt"@, json::string_text(text::dec_text(value as nat))),
            ("startTimeUnixNano"@, json::string_text(text::dec_text(start_ns as nat))),
            ("timeUnixNano"@, json::string_text(text::dec_text(now_ns as nat))),
            ("attributes"@, attributes),
        ],
    );
}

proof fn lemma_gauge_point_is_balanced(value: u64, now_ns: u64)
    ensures
        json::is_balanced(gauge_point(value, now_ns)),
{
    json::lemma_string_is_balanced(text::dec_text(value as nat));
    json::lemma_string_is_balanced(text::dec_text(now_ns as nat));
    lemma_empty_list_is_balanced();
    json::lemma_object_is_balanced(
        seq![
            ("asInt"@, json::string_text(text::dec_text(value as nat))),
            ("timeUnixNano"@, json::string_text(text::dec_text(now_ns as nat))),
            ("attributes"@, json::list_text(Seq::empty())),
        ],
    );
}

proof fn lemma_rate_point_is_balanced(value: Ratio, now_ns: u64)
    ensures
        json::is_balanced(rate_point(value, now_ns)),
{
    json::lemma_plain_text_is_balanced(value.double());
    json::lemma_string_is_balanced(text::dec_text(now_ns as nat));
    lemma_empty_list_is_balanced();
    json::lemma_object_is_balanced(
        seq![
            ("asDouble"@, shortest::plain_text(value.double())),
            ("timeUnixNano"@, json::string_text(text::dec_text(now_ns as nat))),
            ("attributes"@, json::list_text(Seq::empty())),
        ],
    );
}

proof fn lemma_sum_metric_is_balanced(name: Seq<char>, unit: Seq<char>, points: Seq<Seq<char>>)
    requires
        forall|i: int| 0 <= i < points.len() ==> json::is_balanced(#[trigger] points[i]),
    ensures
        json::is_balanced(sum_metric(name, unit, points)),
{
    reveal_strlit("2");
    reveal_strlit("true");
    json::lemma_string_is_balanced(name);
    json::lemma_string_is_balanced(unit);
    json::lemma_plain_is_balanced("2"@);
    json::lemma_plain_is_balanced("true"@);
    json::lemma_list_is_balanced(points);
    let sum = seq![
        ("aggregationTemporality"@, "2"@),
        ("isMonotonic"@, "true"@),
        ("dataPoints"@, json::list_text(points)),
    ];
    json::lemma_object_is_balanced(sum);
    json::lemma_object_is_balanced(
        seq![
            ("name"@, json::string_text(name)),
            ("unit"@, json::string_text(unit)),
            ("sum"@, json::object_text(sum)),
        ],
    );
}

proof fn lemma_gauge_metric_is_balanced(name: Seq<char>, unit: Seq<char>, point: Seq<char>)
    requires
        json::is_balanced(point),
    ensures
        json::is_balanced(gauge_metric(name, unit, point)),
{
    json::lemma_string_is_balanced(name);
    json::lemma_string_is_balanced(unit);
    json::lemma_list_is_balanced(seq![point]);
    let gauge = seq![("dataPoints"@, json::list_text(seq![point]))];
    json::lemma_object_is_balanced(gauge);
    json::lemma_object_is_balanced(
        seq![
            ("name"@, json::string_text(name)),
            ("unit"@, json::string_text(unit)),
            ("gauge"@, json::object_text(gauge)),
        ],
    );
}

proof fn lemma_series_metric_is_balanced(
    name: Seq<char>,
    s: SeriesView,
    names: Seq<Seq<char>>,
    start_ns: u64,
    now_ns: u64,
)
    ensures
        all_balanced(series_metric(name, s, names, start_ns, now_ns)),
{
    let points = series_points(s, names, start_ns, now_ns);
    assert forall|i: int| 0 <= i < points.len() implies json::is_balanced(#[trigger] points[i]) by {
        let items = Seq::new(names.len(), |j: int| attribute(names[j], s[i].0[j]));
        assert forall|j: int| 0 <= j < items.len() implies json::is_balanced(#[trigger] items[j]) by {
            lemma_attribute_is_balanced(names[j], s[i].0[j]);
        }
        json::lemma_list_is_balanced(items);
        assert(items =~= Seq::new(names.len(), |j: int| attribute(names[j], s[i].0[j])));
        lemma_sum_point_is_balanced(s[i].1, start_ns, now_ns, label_attributes(names, s[i].0));
    }
    lemma_sum_metric_is_balanced(name, "1"@, points);
}

/// Every one of the values is balanced.
spec fn all_balanced(items: Seq<Seq<char>>) -> bool {
    forall|i: int| 0 <= i < items.len() ==> json::is_balanced(#[trigger] items[i])
}

proof fn lemma_all_balanced_concat(a: Seq<Seq<char>>, b: Seq<Seq<char>>)
    requires
        all_balanced(a),
        all_balanced(b),
    ensures
        all_balanced(a + b),
{
    assert forall|i: int| 0 <= i < (a + b).len() implies json::is_balanced(
        #[trigger] (a + b)[i],
    ) by {
        if i < a.len() {
            assert((a + b)[i] == a[i]);
        } else {
            assert((a + b)[i] == b[i - a.len()]);
        }
    }
}

proof fn lemma_gauges_are_balanced(m: MetricsView, now_ns: u64)
    ensures
        all_balanced(gauges_list(m, now_ns)),
{
    lemma_gauge_point_is_balanced(m.active_flows, now_ns);
    lemma_gauge_point_is_balanced(m.half_open_max, now_ns);
    lemma_rate_point_is_balanced(m.rst_per_sec, now_ns);
    lemma_rate_point_is_balanced(m.new_flow_per_sec, now_ns);
    lemma_gauge_metric_is_balanced(
        "l4scope.active_flows"@,
        "1"@,
        gauge_point(m.active_flows, now_ns),
    );
    lemma_gauge_metric_is_balanced(
        "l4scope.half_open_max"@,
        "1"@,
        gauge_point(m.half_open_max, now_ns),
    );
    lemma_gauge_metric_is_balanced(
        "l4scope.rst_per_second"@,
        "1/s"@,
        rate_point(m.rst_per_sec, now_ns),
    );
    lemma_gauge_metric_is_balanced(
        "l4scope.new_flows_per_second"@,
        "1/s"@,
        rate_point(m.new_flow_per_sec, now_ns),
    );
}

proof fn lemma_metrics_are_balanced(m: MetricsView, start_ns: u64, now_ns: u64)
    ensures
        all_balanced(metrics_list(m, start_ns, now_ns)),
{
    let point = sum_point(m.packets_total, start_ns, now_ns, json::list_text(Seq::empty()));
    lemma_empty_list_is_balanced();
    lemma_sum_point_is_balanced(
        m.packets_total,
        start_ns,
        now_ns,
        json::list_text(Seq::empty()),
    );
    lemma_sum_metric_is_balanced("l4scope.packets"@, "1"@, seq![point]);
    let packets = seq![packets_metric(m.packets_total, start_ns, now_ns)];
    let events = series_metric(
        "l4scope.events"@,
        m.event_counts,
        seq!["l4.kind"@, "severity"@],
        start_ns,
        now_ns,
    );
    let pod_events = series_metric(
        "l4scope.pod.events"@,
        m.pod_event_counts,
        seq!["k8s.pod.ip"@, "l4.kind"@, "severity"@],
        start_ns,
        now_ns,
    );
    let pod_packets = series_metric(
        "l4scope.pod.packets"@,
        m.pod_packets,
        seq!["k8s.pod.ip"@],
        start_ns,
        now_ns,
    );
    lemma_series_metric_is_balanced(
        "l4scope.events"@,
        m.event_counts,
        seq!["l4.kind"@, "severity"@],
        start_ns,
        now_ns,
    );
    lemma_series_metric_is_balanced(
        "l4scope.pod.events"@,
        m.pod_event_counts,
        seq!["k8s.pod.ip"@, "l4.kind"@, "severity"@],
        start_ns,
        now_ns,
    );
    lemma_series_metric_is_balanced(
        "l4scope.pod.packets"@,
        m.pod_packets,
        seq!["k8s.pod.ip"@],
        start_ns,
        now_ns,
    );
    lemma_gauges_are_balanced(m, now_ns);
    lemma_all_balanced_concat(packets, events);
    lemma_all_balanced_concat(packets + events, pod_events);
    lemma_all_balanced_concat(packets + events + pod_events, pod_packets);
    lemma_all_balanced_concat(
        packets + events + pod_events + pod_packets,
        gauges_list(m, now_ns),
    );
}

proof fn lemma_resource_is_balanced(attributes: Seq<Seq<char>>, metrics: Seq<Seq<char>>)
    requires
        all_balanced(attributes),
        all_balanced(metrics),
    ensures
        json::is_balanced(resource_text(attributes, metrics)),
{
    json::lemma_list_is_balanced(metrics);
    json::lemma_string_is_balanced("l4scope"@);
    json::lemma_string_is_balanced("0.1.0"@);
    let scope = seq![
        ("name"@, json::string_text("l4scope"@)),
        ("version"@, json::string_text("0.1.0"@)),
    ];
    json::lemma_object_is_balanced(scope);
    json::lemma_object_is_balanced(
        seq![("scope"@, json::object_text(scope)), ("metrics"@, json::list_text(metrics))],
    );
    json::lemma_list_is_balanced(seq![scope_text(metrics)]);
    json::lemma_list_is_balanced(attributes);
    let resource = seq![("attributes"@, json::list_text(attributes))];
    json::lemma_object_is_balanced(resource);
    json::lemma_object_is_balanced(
        seq![
            ("resource"@, json::object_text(resource)),
            ("scopeMetrics"@, json::list_text(seq![scope_text(metrics)])),
        ],
    );
}

/// The body is well-formed: lists, objects and strings close what they open, whatever the
/// attributes and addresses hold.
pub proof fn law_body_is_balanced(
    m: MetricsView,
    attrs: Seq<(Seq<char>, Seq<char>)>,
    start_ns: u64,
    now_ns: u64,
)
    ensures
        json::is_balanced(body_text(m, attrs, start_ns, now_ns)),
{
    let metrics = metrics_list(m, start_ns, now_ns);
    lemma_metrics_are_balanced(m, start_ns, now_ns);
    let items = resource_attributes(attrs);
    assert forall|i: int| 0 <= i < items.len() implies json::is_balanced(#[trigger] items[i]) by {
        lemma_attribute_is_balanced(attrs[i].0, attrs[i].1);
    }
    lemma_resource_is_balanced(items, metrics);
    json::lemma_list_is_balanced(seq![resource_text(items, metrics)]);
    json::lemma_object_is_balanced(
        seq![("resourceMetrics"@, json::list_text(seq![resource_text(items, metrics)]))],
    );
}

fn attr_str(key: &str, val: &str) -> (r: String)
    ensures
        r@ == attribute(key@, val@),
{
    let mut v = Object::new();
    v.set_text("stringValue", val);
    assert(v@ =~= seq![("stringValue"@, json::string_text(val@))]);
    let mut o = Object::new();
    o.set_text("key", key);
    o.set("value", v.render().as_str());
    assert(o@ =~= seq![
        ("key"@, json::string_text(key@)),
        ("value"@, json::object_text(seq![("stringValue"@, json::string_text(val@))])),
    ]);
    o.render()
}

/// A list of one rendered value.
fn list_of_one(item: String) -> (r: String)
    ensures
        r@ == json::list_text(seq![item@]),
{
    let mut v: Vec<String> = Vec::new();
    v.push(item);
    assert(text::string_texts(v@) =~= seq![item@]);
    json::list(&v)
}

fn empty_list() -> (r: String)
    ensures
        r@ == json::list_text(Seq::empty()),
{
    let v: Vec<String> = Vec::new();
    assert(text::string_texts(v@) =~= Seq::empty());
    json::list(&v)
}

fn sum_dp_int(value: u64, start_ns: u64, now_ns: u64, attrs: &str) -> (r: String)
    ensures
        r@ == sum_point(value, start_ns, now_ns, attrs@),
{
    let mut o = Object::new();
    o.set_text("asInt", text::decimal(value as u128).as_str());
    o.set_text("startTimeUnixNano", text::decimal(start_ns as u128).as_str());
    o.set_text("timeUnixNano", text::decimal(now_ns as u128).as_str());
    o.set("attributes", attrs);
    assert(o@ =~= seq![
        ("asInt"@, json::string_text(text::dec_text(value as nat))),
        ("startTimeUnixNano"@, json::string_text(text::dec_text(start_ns as nat))),
        ("timeUnixNano"@, json::string_text(text::dec_text(now_ns as nat))),
        ("attributes"@, attrs@),
    ]);
    o.render()
}

fn gauge_dp_int(value: u64, now_ns: u64) -> (r: String)
    ensures
        r@ == gauge_point(value, now_ns),
{
    let mut o = Object::new();
    o.set_text("asInt", text::decimal(value as u128).as_str());
    o.set_text("timeUnixNano", text::decimal(now_ns as u128).as_str());
    o.set("attributes", empty_list().as_str());
    assert(o@ =~= seq![
        ("asInt"@, json::string_text(text::dec_text(value as nat))),
        ("timeUnixNano"@, json::string_text(text::dec_text(now_ns as nat))),
        ("attributes"@, json::list_text(Seq::empty())),
    ]);
    o.render()
}

fn gauge_dp_double(value: Ratio, now_ns: u64) -> (r: String)
    ensures
        r@ == rate_point(value, now_ns),
{
    let mut o = Object::new();
    o.set("asDouble", shortest::plain(value.value()).as_str());
    o.set_text("timeUnixNano", text::decimal(now_ns as u128).as_str());
    o.set("attributes", empty_list().as_str());
    assert(o@ =~= seq![
        ("asDouble"@, shortest::plain_text(value.double())),
        ("timeUnixNano"@, json::string_text(text::dec_text(now_ns as nat))),
        ("attributes"@, json::list_text(Seq::empty())),
    ]);
    o.render()
}

fn metric_sum(name: &str, unit: &str, dps: &Vec<String>) -> (r: String)
    ensures
        r@ == sum_metric(name@, unit@, text::string_texts(dps@)),
{
    let mut sum = Object::new();
    sum.set("aggregationTemporality", "2");
    sum.set("isMonotonic", "true");
    sum.set("dataPoints", json::list(dps).as_str());
    assert(sum@ =~= seq![
        ("aggregationTemporality"@, "2"@),
        ("isMonotonic"@, "true"@),
        ("dataPoints"@, json::list_text(text::string_texts(dps@))),
    ]);
    let mut o = Object::new();
    o.set_text("name", name);
    o.set_text("unit", unit);
    o.set("sum", sum.render().as_str());
    assert(o@ =~= seq![
        ("name"@, json::string_text(name@)),
        ("unit"@, json::string_text(unit@)),
        ("sum"@, json::object_text(sum@)),
    ]);
    o.render()
}

fn metric_gauge(name: &str, unit: &str, dp: String) -> (r: String)
    ensures
        r@ == gauge_metric(name@, unit@, dp@),
{
    let mut gauge = Object::new();
    gauge.set("dataPoints", list_of_one(dp).as_str());
    assert(gauge@ =~= seq![("dataPoints"@, json::list_text(seq![dp@]))]);
    let mut o = Object::new();
    o.set_text("name", name);
    o.set_text("unit", unit);
    o.set("gauge", gauge.render().as_str());
    assert(o@ =~= seq![
        ("name"@, json::string_text(name@)),
        ("unit"@, json::string_text(unit@)),
        ("gauge"@, json::object_text(gauge@)),
    ]);
    o.render()
}

/// Attributes of one label.
fn attrs_one(name: &str, label: &str) -> (r: String)
    ensures
        r@ == label_attributes(seq![name@], seq![label@]),
{
    let r = list_of_one(attr_str(name, label));
    assert(seq![attribute(name@, label@)] =~= Seq::new(
        1,
        |i: int| attribute(seq![name@][i], seq![label@][i]),
    ));
    r
}

/// Attributes of two labels.
fn attrs_two(n0: &str, l0: &str, n1: &str, l1: &str) -> (r: String)
    ensures
        r@ == label_attributes(seq![n0@, n1@], seq![l0@, l1@]),
{
    let mut v: Vec<String> = Vec::new();
    v.push(attr_str(n0, l0));
    v.push(attr_str(n1, l1));
    assert(text::string_texts(v@) =~= Seq::new(
        2,
        |i: int| attribute(seq![n0@, n1@][i], seq![l0@, l1@][i]),
    ));
    json::list(&v)
}

/// Attributes of three labels.
fn attrs_three(n0: &str, l0: &str, n1: &str, l1: &str, n2: &str, l2: &str) -> (r: String)
    ensures
        r@ == label_attributes(seq![n0@, n1@, n2@], seq![l0@, l1@, l2@]),
{
    let mut v: Vec<String> = Vec::new();
    v.push(attr_str(n0, l0));
    v.push(attr_str(n1, l1));
    v.push(attr_str(n2, l2));
    assert(text::string_texts(v@) =~= Seq::new(
        3,
        |i: int| attribute(seq![n0@, n1@, n2@][i], seq![l0@, l1@, l2@][i]),
    ));
    json::list(&v)
}

fn event_points(snap: &MetricsSnapshot, start_ns: u64, now_ns: u64) -> (r: Vec<String>)
    ensures
        text::string_texts(r@) == series_points(
            snap@.event_counts,
            seq!["l4.kind"@, "severity"@],
            start_ns,
            now_ns,
        ),
{
    let ghost want = series_points(
        snap@.event_counts,
        seq!["l4.kind"@, "severity"@],
        start_ns,
        now_ns,
    );
    let mut r: Vec<String> = Vec::new();
    let mut i: usize = 0;
    while i < snap.event_counts.len()
        invariant
            i <= snap.event_counts@.len(),
            r@.len() == i,
            want == series_points(
                snap@.event_counts,
                seq!["l4.kind"@, "severity"@],
                start_ns,
                now_ns,
            ),
            forall|j: int| 0 <= j < i ==> (#[trigger] r@[j])@ == want[j],
        decreases snap.event_counts@.len() - i,
    {
        let (kind, severity, n) = snap.event_counts[i];
        assert(snap@.event_counts[i as int] == (seq![kind@, severity@], n));
        let attrs = attrs_two("l4.kind", kind, "severity", severity);
        r.push(sum_dp_int(n, start_ns, now_ns, attrs.as_str()));
        i = i + 1;
    }
    assert(text::string_texts(r@) =~= want);
    r
}

fn pod_event_points(snap: &MetricsSnapshot, start_ns: u64, now_ns: u64) -> (r: Vec<String>)
    ensures
        text::string_texts(r@) == series_points(
            snap@.pod_event_counts,
            seq!["k8s.pod.ip"@, "l4.kind"@, "severity"@],
            start_ns,
            now_ns,
        ),
{
    let ghost want = series_points(
        snap@.pod_event_counts,
        seq!["k8s.pod.ip"@, "l4.kind"@, "severity"@],
        start_ns,
        now_ns,
    );
    let mut r: Vec<String> = Vec::new();
    let mut i: usize = 0;
    while i < snap.pod_event_counts.len()
        invariant
            i <= snap.pod_event_counts@.len(),
            r@.len() == i,
            want == series_points(
                snap@.pod_event_counts,
                seq!["k8s.pod.ip"@, "l4.kind"@, "severity"@],
                start_ns,
                now_ns,
            ),
            forall|j: int| 0 <= j < i ==> (#[trigger] r@[j])@ == want[j],
        decreases snap.pod_event_counts@.len() - i,
    {
        let e = &snap.pod_event_counts[i];
        assert(snap@.pod_event_counts[i as int] == (seq![e.0@, e.1@, e.2@], e.3));
        let attrs = attrs_three(
            "k8s.pod.ip",
            e.0.as_str(),
            "l4.kind",
            e.1,
            "severity",
            e.2,
        );
        r.push(sum_dp_int(e.3, start_ns, now_ns, attrs.as_str()));
        i = i + 1;
    }
    assert(text::string_texts(r@) =~= want);
    r
}

fn pod_packet_points(snap: &MetricsSnapshot, start_ns: u64, now_ns: u64) -> (r: Vec<String>)
    ensures
        text::string_texts(r@) == series_points(
            snap@.pod_packets,
            seq!["k8s.pod.ip"@],
            start_ns,
            now_ns,
        ),
{
    let ghost want = series_points(snap@.pod_packets, seq!["k8s.pod.ip"@], start_ns, now_ns);
    let mut r: Vec<String> = Vec::new();
    let mut i: usize = 0;
    while i < snap.pod_packets.len()
        invariant
            i <= snap.pod_packets@.len(),
            r@.len() == i,
            want == series_points(snap@.pod_packets, seq!["k8s.pod.ip"@], start_ns, now_ns),
            forall|j: int| 0 <= j < i ==> (#[trigger] r@[j])@ == want[j],
        decreases snap.pod_packets@.len() - i,
    {
        let e = &snap.pod_packets[i];
        assert(snap@.pod_packets[i as int] == (seq![e.0@], e.1));
        let attrs = attrs_one("k8s.pod.ip", e.0.as_str());
        r.push(sum_dp_int(e.1, start_ns, now_ns, attrs.as_str()));
        i = i + 1;
    }
    assert(text::string_texts(r@) =~= want);
    r
}

/// Adds the metric of a series, unless it has no points.
fn add_series(metrics: &mut Vec<String>, name: &str, points: &Vec<String>)
    ensures
        text::string_texts(final(metrics)@) == text::string_texts(old(metrics)@) + (if points@.len()
            == 0 {
            Seq::empty()
        } else {
            seq![sum_metric(name@, "1"@, text::string_texts(points@))]
        }),
{
    let ghost before = text::string_texts(metrics@);
    if points.len() > 0 {
        let m = metric_sum(name, "1", points);
        metrics.push(m);
        assert(text::string_texts(metrics@) =~= before.push(m@));
        assert(before.push(m@) =~= before + seq![m@]);
    } else {
        assert(before =~= before + Seq::<Seq<char>>::empty());
    }
}

fn all_gauges(snap: &MetricsSnapshot, now_ns: u64) -> (gauges: Vec<String>)
    ensures
        text::string_texts(gauges@) == gauges_list(snap@, now_ns),
{
    let mut gauges: Vec<String> = Vec::new();
    gauges.push(metric_gauge("l4scope.active_flows", "1", gauge_dp_int(snap.active_flows, now_ns)));
    gauges.push(
        metric_gauge("l4scope.half_open_max", "1", gauge_dp_int(snap.half_open_max, now_ns)),
    );
    gauges.push(
        metric_gauge("l4scope.rst_per_second", "1/s", gauge_dp_double(snap.rst_per_sec, now_ns)),
    );
    gauges.push(
        metric_gauge(
            "l4scope.new_flows_per_second",
            "1/s",
            gauge_dp_double(snap.new_flow_per_sec, now_ns),
        ),
    );
    assert(text::string_texts(gauges@) =~= gauges_list(snap@, now_ns));
    gauges
}

fn all_metrics(snap: &MetricsSnapshot, start_ns: u64, now_ns: u64) -> (metrics: Vec<String>)
    ensures
        text::string_texts(metrics@) == metrics_list(snap@, start_ns, now_ns),
{
    let ghost m = snap@;
    let mut metrics: Vec<String> = Vec::new();
    assert(text::string_texts(metrics@) =~= Seq::empty());

    // packets (node-level)
    let mut packets: Vec<String> = Vec::new();
    packets.push(sum_dp_int(snap.packets_total, start_ns, now_ns, empty_list().as_str()));
    assert(text::string_texts(packets@) =~= seq![
        sum_point(m.packets_total, start_ns, now_ns, json::list_text(Seq::empty())),
    ]);
    add_series(&mut metrics, "l4scope.packets", &packets);
    assert(text::string_texts(metrics@) =~= seq![
        packets_metric(m.packets_total, start_ns, now_ns),
    ]);
    // events by kind/severity (node-level)
    let events = event_points(snap, start_ns, now_ns);
    assert(text::string_texts(events@).len() == m.event_counts.len());
    add_series(&mut metrics, "l4scope.events", &events);
    // pod-level events
    let pod_events = pod_event_points(snap, start_ns, now_ns);
    assert(text::string_texts(pod_events@).len() == m.pod_event_counts.len());
    add_series(&mut metrics, "l4scope.pod.events", &pod_events);
    // pod-level packets
    let pod_packets = pod_packet_points(snap, start_ns, now_ns);
    assert(text::string_texts(pod_packets@).len() == m.pod_packets.len());
    add_series(&mut metrics, "l4scope.pod.packets", &pod_packets);
    // node-level gauges
    let ghost before = metrics@;
    let mut gauges = all_gauges(snap, now_ns);
    let ghost last = gauges@;
    metrics.append(&mut gauges);
    proof {
        assert(metrics@ =~= before + last);
        assert(text::string_texts(metrics@) =~= text::string_texts(before) + text::string_texts(
            last,
        ));
    }
    metrics
}

/// The metrics under the name of what measured them.
fn render_scope(metrics: &Vec<String>) -> (r: String)
    ensures
        r@ == scope_text(text::string_texts(metrics@)),
{
    let mut scope = Object::new();
    scope.set_text("name", "l4scope");
    scope.set_text("version", "0.1.0");
    assert(scope@ =~= seq![
        ("name"@, json::string_text("l4scope"@)),
        ("version"@, json::string_text("0.1.0"@)),
    ]);
    let mut o = Object::new();
    o.set("scope", scope.render().as_str());
    o.set("metrics", json::list(metrics).as_str());
    assert(o@ =~= seq![
        ("scope"@, json::object_text(scope@)),
        ("metrics"@, json::list_text(text::string_texts(metrics@))),
    ]);
    o.render()
}

/// A resource with its metrics.
fn render_resource(attributes: &Vec<String>, metrics: &Vec<String>) -> (r: String)
    ensures
        r@ == resource_text(text::string_texts(attributes@), text::string_texts(metrics@)),
{
    let mut resource = Object::new();
    resource.set("attributes", json::list(attributes).as_str());
    assert(resource@ =~= seq![
        ("attributes"@, json::list_text(text::string_texts(attributes@))),
    ]);
    let mut o = Object::new();
    o.set("resource", resource.render().as_str());
    o.set("scopeMetrics", list_of_one(render_scope(metrics)).as_str());
    assert(o@ =~= seq![
        ("resource"@, json::object_text(resource@)),
        ("scopeMetrics"@, json::list_text(seq![scope_text(text::string_texts(metrics@))])),
    ]);
    o.render()
}

/// The JSON body that reports a snapshot.
pub fn build_body(
    snap: &MetricsSnapshot,
    resource_attrs: &Vec<(String, String)>,
    start_ns: u64,
    now_ns: u64,
) -> (body: String)
    ensures
        body@ == body_text(snap@, pair_texts(resource_attrs@), start_ns, now_ns),
{
    let ghost attrs = pair_texts(resource_attrs@);
    let metrics = all_metrics(snap, start_ns, now_ns);
    let mut items: Vec<String> = Vec::new();
    let mut i: usize = 0;
    while i < resource_attrs.len()
        invariant
            i <= resource_attrs@.len(),
            items@.len() == i,
            attrs == pair_texts(resource_attrs@),
            forall|j: int|
                0 <= j < i ==> (#[trigger] items@[j])@ == resource_attributes(attrs)[j],
        decreases resource_attrs@.len() - i,
    {
        let (k, v) = &resource_attrs[i];
        assert(attrs[i as int] == (k@, v@));
        items.push(attr_str(k.as_str(), v.as_str()));
        i = i + 1;
    }
    assert(text::string_texts(items@) =~= resource_attributes(attrs));
    let entry = render_resource(&items, &metrics);
    let mut body = Object::new();
    body.set("resourceMetrics", list_of_one(entry).as_str());
    assert(body@ =~= seq![("resourceMetrics"@, json::list_text(seq![entry@]))]);
    body.render()
}

} // verus!
