//! What a collector reads from the body that is posted to it.

use vstd::prelude::*;

use crate::document;
use crate::document::Json;
use crate::json;
use crate::metrics::MetricsView;
use crate::number::Ratio;
use crate::otlp;
use crate::series::SeriesView;
use crate::shortest;
use crate::text;

verus! {

// ---------------------------------------------------------------------------
// What is read
// ---------------------------------------------------------------------------

/// The metrics of that name.
pub open spec fn named(ms: Seq<Json>, name: Seq<char>) -> Seq<Json>
    decreases ms.len(),
{
    if ms.len() == 0 {
        Seq::empty()
    } else {
        let rest = named(ms.skip(1), name);
        if ms[0].get("name"@) == Json::Text(name) {
            seq![ms[0]] + rest
        } else {
            rest
        }
    }
}

/// The resource that a body reports on.
pub open spec fn resource_in(body: Seq<char>) -> Json {
    match document::read(body) {
        Some(doc) => doc.get("resourceMetrics"@).all()[0],
        None => Json::List(Seq::empty()),
    }
}

/// The metrics in a body.
pub open spec fn metrics_in(body: Seq<char>) -> Seq<Json> {
    resource_in(body).get("scopeMetrics"@).all()[0].get("metrics"@).all()
}

/// The attributes give each name its value, in order.
pub open spec fn attributes_read(j: Json, names: Seq<Seq<char>>, values: Seq<Seq<char>>) -> bool {
    let v = j.all();
    &&& j is List
    &&& v.len() == names.len()
    &&& forall|i: int|
        #![trigger v[i]]
        0 <= i < v.len() ==> v[i].get("key"@) == Json::Text(names[i]) && v[i].get("value"@).get(
            "stringValue"@,
        ) == Json::Text(values[i])
}

/// A point counts `n` between two times.
pub open spec fn point_reads(p: Json, n: u64, start_ns: u64, now_ns: u64) -> bool {
    &&& p.get("asInt"@).is_count(n as nat)
    &&& p.get("startTimeUnixNano"@).is_count(start_ns as nat)
    &&& p.get("timeUnixNano"@).is_count(now_ns as nat)
}

/// The points of a cumulative, monotonic sum.
pub open spec fn points_of(metric: Json) -> Seq<Json> {
    metric.get("sum"@).get("dataPoints"@).all()
}

/// The metric is a cumulative (2), monotonic sum of plain counts.
pub open spec fn is_sum(metric: Json) -> bool {
    &&& metric.get("unit"@) == Json::Text("1"@)
    &&& metric.get("sum"@).get("aggregationTemporality"@) == Json::Bare("2"@)
    &&& metric.get("sum"@).get("isMonotonic"@) == Json::Bare("true"@)
}

/// Among the metrics exactly one has the name, a sum with one point for each entry of the
/// series, which gives the entry's labels and its count; none has it where the series is
/// empty.
pub open spec fn series_reads(
    ms: Seq<Json>,
    name: Seq<char>,
    names: Seq<Seq<char>>,
    s: SeriesView,
    start_ns: u64,
    now_ns: u64,
) -> bool {
    let found = named(ms, name);
    if s.len() == 0 {
        found.len() == 0
    } else {
        let points = points_of(found[0]);
        &&& found.len() == 1
        &&& is_sum(found[0])
        &&& points.len() == s.len()
        &&& forall|i: int|
            #![trigger points[i]]
            0 <= i < s.len() ==> point_reads(points[i], s[i].1, start_ns, now_ns)
                && attributes_read(points[i].get("attributes"@), names, s[i].0)
    }
}

/// The only point of the only gauge of that name.
pub open spec fn gauge_in(ms: Seq<Json>, name: Seq<char>) -> Json {
    named(ms, name)[0].get("gauge"@).get("dataPoints"@).all()[0]
}

/// Exactly one metric has the name, a gauge with one point at that time.
pub open spec fn is_gauge(ms: Seq<Json>, name: Seq<char>, unit: Seq<char>, now_ns: u64) -> bool {
    &&& named(ms, name).len() == 1
    &&& named(ms, name)[0].get("unit"@) == Json::Text(unit)
    &&& named(ms, name)[0].get("gauge"@).get("dataPoints"@).all().len() == 1
    &&& gauge_in(ms, name).get("timeUnixNano"@).is_count(now_ns as nat)
}

// ---------------------------------------------------------------------------
// Documents
// ---------------------------------------------------------------------------

proof fn lemma_get(ms: Seq<(Seq<char>, Json)>, i: int)
    requires
        0 <= i < ms.len(),
        forall|j: int| 0 <= j < i ==> (#[trigger] ms[j]).0 != ms[i].0,
    ensures
        Json::Object(ms).get(ms[i].0) == ms[i].1,
    decreases ms.len(),
{
    if i > 0 {
        let rest = ms.skip(1);
        assert(rest[i - 1] == ms[i]);
        assert forall|j: int| 0 <= j < i - 1 implies (#[trigger] rest[j]).0 != rest[i - 1].0 by {
            assert(rest[j] == ms[j + 1]);
        }
        lemma_get(rest, i - 1);
        assert(ms[0].0 != ms[i].0);
    }
}

spec fn attribute_doc(key: Seq<char>, val: Seq<char>) -> Json {
    Json::Object(
        seq![
            ("key"@, Json::Text(key)),
            ("value"@, Json::Object(seq![("stringValue"@, Json::Text(val))])),
        ],
    )
}

proof fn lemma_attribute(key: Seq<char>, val: Seq<char>)
    ensures
        document::writes(otlp::attribute(key, val), attribute_doc(key, val)),
        attribute_doc(key, val).get("key"@) == Json::Text(key),
        attribute_doc(key, val).get("value"@).get("stringValue"@) == Json::Text(val),
{
    document::lemma_string_writes(key);
    document::lemma_string_writes(val);
    let inner = seq![("stringValue"@, Json::Text(val))];
    document::lemma_object_writes(seq![("stringValue"@, json::string_text(val))], inner);
    let outer = seq![("key"@, Json::Text(key)), ("value"@, Json::Object(inner))];
    document::lemma_object_writes(
        seq![
            ("key"@, json::string_text(key)),
            ("value"@, json::object_text(seq![("stringValue"@, json::string_text(val))])),
        ],
        outer,
    );
    reveal_strlit("key");
    reveal_strlit("value");
    assert("key"@.len() == 3 && "value"@.len() == 5);
    lemma_get(inner, 0);
    lemma_get(outer, 0);
    lemma_get(outer, 1);
}

spec fn labels_doc(names: Seq<Seq<char>>, labels: Seq<Seq<char>>) -> Json {
    Json::List(Seq::new(names.len(), |i: int| attribute_doc(names[i], labels[i])))
}

proof fn lemma_labels(names: Seq<Seq<char>>, labels: Seq<Seq<char>>)
    ensures
        document::writes(otlp::label_attributes(names, labels), labels_doc(names, labels)),
        attributes_read(labels_doc(names, labels), names, labels),
{
    let ts = Seq::new(names.len(), |i: int| otlp::attribute(names[i], labels[i]));
    let vs = Seq::new(names.len(), |i: int| attribute_doc(names[i], labels[i]));
    assert forall|i: int| 0 <= i < ts.len() implies document::writes(#[trigger] ts[i], vs[i]) by {
        lemma_attribute(names[i], labels[i]);
    }
    document::lemma_list_writes(ts, vs);
    assert forall|i: int|
        #![trigger vs[i]]
        0 <= i < vs.len() implies vs[i].get("key"@) == Json::Text(names[i]) && vs[i].get(
        "value"@,
    ).get("stringValue"@) == Json::Text(labels[i]) by {
        lemma_attribute(names[i], labels[i]);
    }
    assert(labels_doc(names, labels).all() == vs);
}

spec fn number_doc(n: nat) -> Json {
    Json::Text(text::dec_text(n))
}

proof fn lemma_number(n: nat)
    ensures
        document::writes(json::string_text(text::dec_text(n)), number_doc(n)),
        number_doc(n).is_count(n),
{
    document::lemma_string_writes(text::dec_text(n));
    text::lemma_dec_text_value(n);
}

spec fn sum_point_doc(value: u64, start_ns: u64, now_ns: u64, attributes: Json) -> Json {
    Json::Object(
        seq![
            ("asInt"@, number_doc(value as nat)),
            ("startTimeUnixNano"@, number_doc(start_ns as nat)),
            ("timeUnixNano"@, number_doc(now_ns as nat)),
            ("attributes"@, attributes),
        ],
    )
}

proof fn lemma_sum_point(
    value: u64,
    start_ns: u64,
    now_ns: u64,
    attributes: Seq<char>,
    doc: Json,
)
    requires
        document::writes(attributes, doc),
    ensures
        document::writes(
            otlp::sum_point(value, start_ns, now_ns, attributes),
            sum_point_doc(value, start_ns, now_ns, doc),
        ),
        point_reads(sum_point_doc(value, start_ns, now_ns, doc), value, start_ns, now_ns),
        sum_point_doc(value, start_ns, now_ns, doc).get("attributes"@) == doc,
{
    lemma_number(value as nat);
    lemma_number(start_ns as nat);
    lemma_number(now_ns as nat);
    let ms = seq![
        ("asInt"@, number_doc(value as nat)),
        ("startTimeUnixNano"@, number_doc(start_ns as nat)),
        ("timeUnixNano"@, number_doc(now_ns as nat)),
        ("attributes"@, doc),
    ];
    document::lemma_object_writes(
        seq![
            ("asInt"@, json::string_text(text::dec_text(value as nat))),
            ("startTimeUnixNano"@, json::string_text(text::dec_text(start_ns as nat))),
            ("timeUnixNano"@, json::string_text(text::dec_text(now_ns as nat))),
            ("attributes"@, attributes),
        ],
        ms,
    );
    reveal_strlit("asInt");
    reveal_strlit("startTimeUnixNano");
    reveal_strlit("timeUnixNano");
    reveal_strlit("attributes");
    assert("asInt"@.len() == 5 && "startTimeUnixNano"@.len() == 17);
    assert("timeUnixNano"@.len() == 12 && "attributes"@.len() == 10);
    lemma_get(ms, 0);
    lemma_get(ms, 1);
    lemma_get(ms, 2);
    lemma_get(ms, 3);
}

spec fn gauge_point_doc(key: Seq<char>, value: Json, now_ns: u64) -> Json {
    Json::Object(
        seq![
            (key, value),
            ("timeUnixNano"@, number_doc(now_ns as nat)),
            ("attributes"@, Json::List(Seq::empty())),
        ],
    )
}

proof fn lemma_gauge_point(key: Seq<char>, value: Seq<char>, doc: Json, now_ns: u64)
    requires
        document::writes(value, doc),
        key == "asInt"@ || key == "asDouble"@,
    ensures
        document::writes(
            json::object_text(
                seq![
                    (key, value),
                    ("timeUnixNano"@, json::string_text(text::dec_text(now_ns as nat))),
                    ("attributes"@, json::list_text(Seq::empty())),
                ],
            ),
            gauge_point_doc(key, doc, now_ns),
        ),
        gauge_point_doc(key, doc, now_ns).get(key) == doc,
        gauge_point_doc(key, doc, now_ns).get("timeUnixNano"@).is_count(now_ns as nat),
{
    lemma_number(now_ns as nat);
    document::lemma_list_writes(Seq::empty(), Seq::empty());
    let ms = seq![
        (key, doc),
        ("timeUnixNano"@, number_doc(now_ns as nat)),
        ("attributes"@, Json::List(Seq::empty())),
    ];
    document::lemma_object_writes(
        seq![
            (key, value),
            ("timeUnixNano"@, json::string_text(text::dec_text(now_ns as nat))),
            ("attributes"@, json::list_text(Seq::empty())),
        ],
        ms,
    );
    reveal_strlit("asInt");
    reveal_strlit("asDouble");
    reveal_strlit("timeUnixNano");
    assert("asInt"@.len() == 5 && "asDouble"@.len() == 8 && "timeUnixNano"@.len() == 12);
    lemma_get(ms, 0);
    lemma_get(ms, 1);
}

spec fn sum_doc(name: Seq<char>, unit: Seq<char>, points: Seq<Json>) -> Json {
    Json::Object(
        seq![
            ("name"@, Json::Text(name)),
            ("unit"@, Json::Text(unit)),
            (
                "sum"@,
                Json::Object(
                    seq![
                        ("aggregationTemporality"@, Json::Bare("2"@)),
                        ("isMonotonic"@, Json::Bare("true"@)),
                        ("dataPoints"@, Json::List(points)),
                    ],
                ),
            ),
        ],
    )
}

proof fn lemma_sum(name: Seq<char>, points: Seq<Seq<char>>, docs: Seq<Json>)
    requires
        points.len() == docs.len(),
        forall|i: int| 0 <= i < points.len() ==> document::writes(#[trigger] points[i], docs[i]),
    ensures
        document::writes(otlp::sum_metric(name, "1"@, points), sum_doc(name, "1"@, docs)),
        is_sum(sum_doc(name, "1"@, docs)),
        points_of(sum_doc(name, "1"@, docs)) == docs,
        sum_doc(name, "1"@, docs).get("name"@) == Json::Text(name),
{
    document::lemma_string_writes(name);
    document::lemma_string_writes("1"@);
    reveal_strlit("2");
    reveal_strlit("true");
    document::lemma_bare_writes("2"@);
    document::lemma_bare_writes("true"@);
    document::lemma_list_writes(points, docs);
    let inner = seq![
        ("aggregationTemporality"@, Json::Bare("2"@)),
        ("isMonotonic"@, Json::Bare("true"@)),
        ("dataPoints"@, Json::List(docs)),
    ];
    let sum = seq![
        ("aggregationTemporality"@, "2"@),
        ("isMonotonic"@, "true"@),
        ("dataPoints"@, json::list_text(points)),
    ];
    document::lemma_object_writes(sum, inner);
    let outer = seq![
        ("name"@, Json::Text(name)),
        ("unit"@, Json::Text("1"@)),
        ("sum"@, Json::Object(inner)),
    ];
    document::lemma_object_writes(
        seq![
            ("name"@, json::string_text(name)),
            ("unit"@, json::string_text("1"@)),
            ("sum"@, json::object_text(sum)),
        ],
        outer,
    );
    lemma_metric_names();
    reveal_strlit("aggregationTemporality");
    reveal_strlit("isMonotonic");
    reveal_strlit("dataPoints");
    assert("aggregationTemporality"@.len() == 22 && "isMonotonic"@.len() == 11);
    assert("dataPoints"@.len() == 10);
    lemma_get(inner, 0);
    lemma_get(inner, 1);
    lemma_get(inner, 2);
    lemma_get(outer, 0);
    lemma_get(outer, 1);
    lemma_get(outer, 2);
}

proof fn lemma_metric_names()
    ensures
        "name"@ != "unit"@,
        "name"@ != "sum"@,
        "unit"@ != "sum"@,
        "name"@ != "gauge"@,
        "unit"@ != "gauge"@,
{
    reveal_strlit("name");
    reveal_strlit("unit");
    reveal_strlit("sum");
    reveal_strlit("gauge");
    assert("name"@[0] != "unit"@[0]);
}

spec fn gauge_doc(name: Seq<char>, unit: Seq<char>, point: Json) -> Json {
    Json::Object(
        seq![
            ("name"@, Json::Text(name)),
            ("unit"@, Json::Text(unit)),
            ("gauge"@, Json::Object(seq![("dataPoints"@, Json::List(seq![point]))])),
        ],
    )
}

proof fn lemma_gauge(name: Seq<char>, unit: Seq<char>, point: Seq<char>, doc: Json)
    requires
        document::writes(point, doc),
    ensures
        document::writes(otlp::gauge_metric(name, unit, point), gauge_doc(name, unit, doc)),
        gauge_doc(name, unit, doc).get("name"@) == Json::Text(name),
        gauge_doc(name, unit, doc).get("unit"@) == Json::Text(unit),
        gauge_doc(name, unit, doc).get("gauge"@).get("dataPoints"@).all() == seq![doc],
{
    document::lemma_string_writes(name);
    document::lemma_string_writes(unit);
    document::lemma_list_writes(seq![point], seq![doc]);
    let inner = seq![("dataPoints"@, Json::List(seq![doc]))];
    let gauge = seq![("dataPoints"@, json::list_text(seq![point]))];
    document::lemma_object_writes(gauge, inner);
    let outer = seq![
        ("name"@, Json::Text(name)),
        ("unit"@, Json::Text(unit)),
        ("gauge"@, Json::Object(inner)),
    ];
    document::lemma_object_writes(
        seq![
            ("name"@, json::string_text(name)),
            ("unit"@, json::string_text(unit)),
            ("gauge"@, json::object_text(gauge)),
        ],
        outer,
    );
    lemma_metric_names();
    lemma_get(inner, 0);
    lemma_get(outer, 0);
    lemma_get(outer, 1);
    lemma_get(outer, 2);
}

// ---------------------------------------------------------------------------
// Numbers
// ---------------------------------------------------------------------------

/// Digits and at most a point.
spec fn is_plain_number(t: Seq<char>) -> bool {
    &&& t.len() > 0
    &&& forall|i: int| 0 <= i < t.len() ==> ('0' <= #[trigger] t[i] <= '9') || t[i] == '.'
}

proof fn lemma_decimal_is_plain(n: nat, m: nat, width: nat)
    ensures
        is_plain_number(text::dec_text(n)),
        is_plain_number(text::dec_text(n) + "."@ + text::dec_padded(m, width)),
{
    reveal_strlit(".");
    text::lemma_dec_text_value(n);
    json::lemma_padded_digits(m, width);
    let a = text::dec_text(n);
    let b = text::dec_padded(m, width);
    let s = a + "."@ + b;
    assert forall|i: int| 0 <= i < s.len() implies ('0' <= #[trigger] s[i] <= '9') || s[i]
        == '.' by {
        if i < a.len() {
            assert(s[i] == a[i]);
        } else if i > a.len() {
            assert(s[i] == b[i - a.len() - 1]);
        }
    }
}

proof fn lemma_plain_number_writes(t: Seq<char>)
    requires
        is_plain_number(t),
    ensures
        document::writes(t, Json::Bare(t)),
{
    assert forall|i: int| 0 <= i < t.len() implies !document::ends_bare(#[trigger] t[i]) by {
        assert(('0' <= t[i] <= '9') || t[i] == '.');
    }
    assert(('0' <= t[0] <= '9') || t[0] == '.');
    document::lemma_bare_writes(t);
}

/// A double's text is a number as it stands.
pub proof fn lemma_double_writes(d: crate::binary::Double)
    ensures
        document::writes(shortest::plain_text(d), Json::Bare(shortest::plain_text(d))),
{
    let k = shortest::coarsest(d);
    let n = shortest::nearest_multiple(d, k);
    lemma_decimal_is_plain(0, 0, 0);
    if k >= 0 {
        lemma_decimal_is_plain(n * crate::number::pow10(k as nat), 0, 0);
    } else {
        let places = (-k) as nat;
        lemma_decimal_is_plain(
            n / crate::number::pow10(places),
            n % crate::number::pow10(places),
            places,
        );
    }
    lemma_plain_number_writes(shortest::plain_text(d));
}

/// A ratio's fixed text is a number as it stands.
pub proof fn lemma_fixed_writes(r: Ratio, places: nat)
    ensures
        document::writes(r.fixed_text(places), Json::Bare(r.fixed_text(places))),
{
    reveal(Ratio::fixed_text);
    let num = r.double().num();
    let den = r.double().den();
    let n = if den == 0 {
        0
    } else {
        crate::number::rounded(num * crate::number::pow10(places), den)
    };
    lemma_decimal_is_plain(n, 0, 0);
    lemma_decimal_is_plain(
        n / crate::number::pow10(places),
        n % crate::number::pow10(places),
        places,
    );
    lemma_plain_number_writes(r.fixed_text(places));
}

/// A whole number is a number as it stands.
pub proof fn lemma_whole_writes(n: nat)
    ensures
        document::writes(text::dec_text(n), Json::Bare(text::dec_text(n))),
{
    lemma_decimal_is_plain(n, 0, 0);
    lemma_plain_number_writes(text::dec_text(n));
}

// ---------------------------------------------------------------------------
// The whole body
// ---------------------------------------------------------------------------

proof fn lemma_named_concat(a: Seq<Json>, b: Seq<Json>, name: Seq<char>)
    ensures
        named(a + b, name) == named(a, name) + named(b, name),
    decreases a.len(),
{
    if a.len() == 0 {
        assert(a + b =~= b);
    } else {
        lemma_named_concat(a.skip(1), b, name);
        assert((a + b).skip(1) =~= a.skip(1) + b);
        assert(named(a + b, name) =~= named(a, name) + named(b, name));
    }
}

proof fn lemma_named_one(m: Json, own: Seq<char>, name: Seq<char>)
    requires
        m.get("name"@) == Json::Text(own),
    ensures
        named(seq![m], name) == (if own == name {
            seq![m]
        } else {
            Seq::empty()
        }),
{
    assert(seq![m].skip(1) =~= Seq::empty());
    assert(named(seq![m].skip(1), name) == Seq::<Json>::empty());
    assert(seq![m] + Seq::<Json>::empty() =~= seq![m]);
}

/// The documents are what the texts write.
spec fn all_write(ts: Seq<Seq<char>>, vs: Seq<Json>) -> bool {
    &&& ts.len() == vs.len()
    &&& forall|i: int| 0 <= i < ts.len() ==> document::writes(#[trigger] ts[i], vs[i])
}

proof fn lemma_all_write_concat(
    a: Seq<Seq<char>>,
    b: Seq<Seq<char>>,
    x: Seq<Json>,
    y: Seq<Json>,
)
    requires
        all_write(a, x),
        all_write(b, y),
    ensures
        all_write(a + b, x + y),
{
    assert forall|i: int| 0 <= i < (a + b).len() implies document::writes(
        #[trigger] (a + b)[i],
        (x + y)[i],
    ) by {
        if i < a.len() {
            assert((a + b)[i] == a[i]);
        } else {
            assert((a + b)[i] == b[i - a.len()]);
        }
    }
}

/// A series is written as this: the metric has the name and reads as the series.
spec fn is_series_doc(
    v: Seq<Json>,
    name: Seq<char>,
    names: Seq<Seq<char>>,
    s: SeriesView,
    start_ns: u64,
    now_ns: u64,
) -> bool {
    if s.len() == 0 {
        v.len() == 0
    } else {
        let points = points_of(v[0]);
        &&& v.len() == 1
        &&& v[0].get("name"@) == Json::Text(name)
        &&& is_sum(v[0])
        &&& points.len() == s.len()
        &&& forall|i: int|
            #![trigger points[i]]
            0 <= i < s.len() ==> point_reads(points[i], s[i].1, start_ns, now_ns)
                && attributes_read(points[i].get("attributes"@), names, s[i].0)
    }
}

proof fn lemma_series(
    name: Seq<char>,
    s: SeriesView,
    names: Seq<Seq<char>>,
    start_ns: u64,
    now_ns: u64,
) -> (v: Seq<Json>)
    ensures
        all_write(otlp::series_metric(name, s, names, start_ns, now_ns), v),
        is_series_doc(v, name, names, s, start_ns, now_ns),
{
    if s.len() == 0 {
        Seq::empty()
    } else {
        let ts = otlp::series_points(s, names, start_ns, now_ns);
        let docs = s.map_values(
            |e: (Seq<Seq<char>>, u64)|
                sum_point_doc(e.1, start_ns, now_ns, labels_doc(names, e.0)),
        );
        assert forall|i: int| 0 <= i < ts.len() implies document::writes(
            #[trigger] ts[i],
            docs[i],
        ) by {
            lemma_labels(names, s[i].0);
            lemma_sum_point(
                s[i].1,
                start_ns,
                now_ns,
                otlp::label_attributes(names, s[i].0),
                labels_doc(names, s[i].0),
            );
        }
        lemma_sum(name, ts, docs);
        let v = seq![sum_doc(name, "1"@, docs)];
        assert forall|i: int|
            #![trigger docs[i]]
            0 <= i < s.len() implies point_reads(docs[i], s[i].1, start_ns, now_ns)
            && attributes_read(docs[i].get("attributes"@), names, s[i].0) by {
            lemma_labels(names, s[i].0);
            lemma_sum_point(
                s[i].1,
                start_ns,
                now_ns,
                otlp::label_attributes(names, s[i].0),
                labels_doc(names, s[i].0),
            );
        }
        v
    }
}

proof fn lemma_body(
    m: MetricsView,
    attrs: Seq<(Seq<char>, Seq<char>)>,
    start_ns: u64,
    now_ns: u64,
    docs: Seq<Json>,
)
    requires
        all_write(otlp::metrics_list(m, start_ns, now_ns), docs),
    ensures
        ({
            let body = otlp::body_text(m, attrs, start_ns, now_ns);
            &&& document::read(body) is Some
            &&& (document::read(body)->0).get("resourceMetrics"@).all().len() == 1
            &&& resource_in(body).get("scopeMetrics"@).all().len() == 1
            &&& metrics_in(body) == docs
            &&& attributes_read(
                resource_in(body).get("resource"@).get("attributes"@),
                attrs.map_values(|a: (Seq<char>, Seq<char>)| a.0),
                attrs.map_values(|a: (Seq<char>, Seq<char>)| a.1),
            )
        }),
{
    let list = otlp::metrics_list(m, start_ns, now_ns);
    // The scope.
    document::lemma_string_writes("l4scope"@);
    document::lemma_string_writes("0.1.0"@);
    let about = seq![
        ("name"@, Json::Text("l4scope"@)),
        ("version"@, Json::Text("0.1.0"@)),
    ];
    let about_text = seq![
        ("name"@, json::string_text("l4scope"@)),
        ("version"@, json::string_text("0.1.0"@)),
    ];
    document::lemma_object_writes(about_text, about);
    document::lemma_list_writes(list, docs);
    let scope = seq![("scope"@, Json::Object(about)), ("metrics"@, Json::List(docs))];
    document::lemma_object_writes(
        seq![("scope"@, json::object_text(about_text)), ("metrics"@, json::list_text(list))],
        scope,
    );
    document::lemma_list_writes(seq![otlp::scope_text(list)], seq![Json::Object(scope)]);
    // The resource.
    let ts = otlp::resource_attributes(attrs);
    let names = attrs.map_values(|a: (Seq<char>, Seq<char>)| a.0);
    let values = attrs.map_values(|a: (Seq<char>, Seq<char>)| a.1);
    let vs = attrs.map_values(|a: (Seq<char>, Seq<char>)| attribute_doc(a.0, a.1));
    assert forall|i: int| 0 <= i < ts.len() implies document::writes(#[trigger] ts[i], vs[i]) by {
        lemma_attribute(attrs[i].0, attrs[i].1);
    }
    document::lemma_list_writes(ts, vs);
    assert(attributes_read(Json::List(vs), names, values)) by {
        assert forall|i: int|
            #![trigger vs[i]]
            0 <= i < vs.len() implies vs[i].get("key"@) == Json::Text(names[i]) && vs[i].get(
            "value"@,
        ).get("stringValue"@) == Json::Text(values[i]) by {
            lemma_attribute(attrs[i].0, attrs[i].1);
        }
    }
    let inner = seq![("attributes"@, Json::List(vs))];
    let inner_text = seq![("attributes"@, json::list_text(ts))];
    document::lemma_object_writes(inner_text, inner);
    let resource = seq![
        ("resource"@, Json::Object(inner)),
        ("scopeMetrics"@, Json::List(seq![Json::Object(scope)])),
    ];
    document::lemma_object_writes(
        seq![
            ("resource"@, json::object_text(inner_text)),
            ("scopeMetrics"@, json::list_text(seq![otlp::scope_text(list)])),
        ],
        resource,
    );
    let res_text = otlp::resource_text(ts, list);
    document::lemma_list_writes(seq![res_text], seq![Json::Object(resource)]);
    let doc = seq![("resourceMetrics"@, Json::List(seq![Json::Object(resource)]))];
    document::lemma_object_writes(
        seq![("resourceMetrics"@, json::list_text(seq![res_text]))],
        doc,
    );
    let body = otlp::body_text(m, attrs, start_ns, now_ns);
    document::lemma_written_is_read(body, Json::Object(doc));
    reveal_strlit("scope");
    reveal_strlit("metrics");
    reveal_strlit("resource");
    reveal_strlit("scopeMetrics");
    assert("scope"@.len() == 5 && "metrics"@.len() == 7);
    assert("resource"@.len() == 8 && "scopeMetrics"@.len() == 12);
    lemma_get(doc, 0);
    lemma_get(resource, 0);
    lemma_get(resource, 1);
    lemma_get(inner, 0);
    lemma_get(scope, 1);
}

proof fn lemma_metric_name_lengths()
    ensures
        "l4scope.packets"@.len() == 15,
        "l4scope.events"@.len() == 14,
        "l4scope.pod.events"@.len() == 18,
        "l4scope.pod.packets"@.len() == 19,
        "l4scope.active_flows"@.len() == 20,
        "l4scope.half_open_max"@.len() == 21,
        "l4scope.rst_per_second"@.len() == 22,
        "l4scope.new_flows_per_second"@.len() == 28,
{
    reveal_strlit("l4scope.packets");
    reveal_strlit("l4scope.events");
    reveal_strlit("l4scope.pod.events");
    reveal_strlit("l4scope.pod.packets");
    reveal_strlit("l4scope.active_flows");
    reveal_strlit("l4scope.half_open_max");
    reveal_strlit("l4scope.rst_per_second");
    reveal_strlit("l4scope.new_flows_per_second");
}

proof fn lemma_named_some(v: Seq<Json>, own: Seq<char>, name: Seq<char>)
    requires
        v.len() <= 1,
        v.len() == 1 ==> v[0].get("name"@) == Json::Text(own),
    ensures
        named(v, name) == (if own == name {
            v
        } else {
            Seq::empty()
        }),
{
    if v.len() == 1 {
        assert(v =~= seq![v[0]]);
        lemma_named_one(v[0], own, name);
    } else {
        assert(v =~= Seq::empty());
    }
}

proof fn lemma_find(
    packets: Json,
    events: Seq<Json>,
    pod_events: Seq<Json>,
    pod_packets: Seq<Json>,
    g0: Json,
    g1: Json,
    g2: Json,
    g3: Json,
    name: Seq<char>,
)
    requires
        packets.get("name"@) == Json::Text("l4scope.packets"@),
        events.len() <= 1,
        events.len() == 1 ==> events[0].get("name"@) == Json::Text("l4scope.events"@),
        pod_events.len() <= 1,
        pod_events.len() == 1 ==> pod_events[0].get("name"@) == Json::Text("l4scope.pod.events"@),
        pod_packets.len() <= 1,
        pod_packets.len() == 1 ==> pod_packets[0].get("name"@) == Json::Text(
            "l4scope.pod.packets"@,
        ),
        g0.get("name"@) == Json::Text("l4scope.active_flows"@),
        g1.get("name"@) == Json::Text("l4scope.half_open_max"@),
        g2.get("name"@) == Json::Text("l4scope.rst_per_second"@),
        g3.get("name"@) == Json::Text("l4scope.new_flows_per_second"@),
    ensures
        named(
            seq![packets] + events + pod_events + pod_packets + seq![g0, g1, g2, g3],
            name,
        ) == named(seq![packets], name) + named(events, name) + named(pod_events, name) + named(
            pod_packets,
            name,
        ) + (named(seq![g0], name) + named(seq![g1], name) + named(seq![g2], name) + named(
            seq![g3],
            name,
        )),
        named(seq![packets], name) == (if name == "l4scope.packets"@ {
            seq![packets]
        } else {
            Seq::empty()
        }),
        named(events, name) == (if name == "l4scope.events"@ {
            events
        } else {
            Seq::empty()
        }),
        named(pod_events, name) == (if name == "l4scope.pod.events"@ {
            pod_events
        } else {
            Seq::empty()
        }),
        named(pod_packets, name) == (if name == "l4scope.pod.packets"@ {
            pod_packets
        } else {
            Seq::empty()
        }),
        named(seq![g0], name) == (if name == "l4scope.active_flows"@ {
            seq![g0]
        } else {
            Seq::empty()
        }),
        named(seq![g1], name) == (if name == "l4scope.half_open_max"@ {
            seq![g1]
        } else {
            Seq::empty()
        }),
        named(seq![g2], name) == (if name == "l4scope.rst_per_second"@ {
            seq![g2]
        } else {
            Seq::empty()
        }),
        named(seq![g3], name) == (if name == "l4scope.new_flows_per_second"@ {
            seq![g3]
        } else {
            Seq::empty()
        }),
{
    let a = seq![packets];
    let g = seq![g0, g1, g2, g3];
    lemma_named_concat(a + events + pod_events + pod_packets, g, name);
    lemma_named_concat(a + events + pod_events, pod_packets, name);
    lemma_named_concat(a + events, pod_events, name);
    lemma_named_concat(a, events, name);
    assert(g =~= seq![g0] + seq![g1] + seq![g2] + seq![g3]);
    lemma_named_concat(seq![g0] + seq![g1] + seq![g2], seq![g3], name);
    lemma_named_concat(seq![g0] + seq![g1], seq![g2], name);
    lemma_named_concat(seq![g0], seq![g1], name);
    lemma_named_one(packets, "l4scope.packets"@, name);
    lemma_named_some(events, "l4scope.events"@, name);
    lemma_named_some(pod_events, "l4scope.pod.events"@, name);
    lemma_named_some(pod_packets, "l4scope.pod.packets"@, name);
    lemma_named_one(g0, "l4scope.active_flows"@, name);
    lemma_named_one(g1, "l4scope.half_open_max"@, name);
    lemma_named_one(g2, "l4scope.rst_per_second"@, name);
    lemma_named_one(g3, "l4scope.new_flows_per_second"@, name);
}

/// What the metrics are, one after another.
spec fn is_report(
    docs: Seq<Json>,
    m: MetricsView,
    start_ns: u64,
    now_ns: u64,
    packets: Json,
    events: Seq<Json>,
    pod_events: Seq<Json>,
    pod_packets: Seq<Json>,
    g0: Json,
    g1: Json,
    g2: Json,
    g3: Json,
) -> bool {
    &&& docs == seq![packets] + events + pod_events + pod_packets + seq![g0, g1, g2, g3]
    &&& packets.get("name"@) == Json::Text("l4scope.packets"@)
    &&& is_sum(packets)
    &&& points_of(packets).len() == 1
    &&& point_reads(points_of(packets)[0], m.packets_total, start_ns, now_ns)
    &&& points_of(packets)[0].get("attributes"@) == Json::List(Seq::empty())
    &&& is_series_doc(
        events,
        "l4scope.events"@,
        seq!["l4.kind"@, "severity"@],
        m.event_counts,
        start_ns,
        now_ns,
    )
    &&& is_series_doc(
        pod_events,
        "l4scope.pod.events"@,
        seq!["k8s.pod.ip"@, "l4.kind"@, "severity"@],
        m.pod_event_counts,
        start_ns,
        now_ns,
    )
    &&& is_series_doc(
        pod_packets,
        "l4scope.pod.packets"@,
        seq!["k8s.pod.ip"@],
        m.pod_packets,
        start_ns,
        now_ns,
    )
    &&& g0 == gauge_doc(
        "l4scope.active_flows"@,
        "1"@,
        gauge_point_doc("asInt"@, number_doc(m.active_flows as nat), now_ns),
    )
    &&& g1 == gauge_doc(
        "l4scope.half_open_max"@,
        "1"@,
        gauge_point_doc("asInt"@, number_doc(m.half_open_max as nat), now_ns),
    )
    &&& g2 == gauge_doc(
        "l4scope.rst_per_second"@,
        "1/s"@,
        gauge_point_doc(
            "asDouble"@,
            Json::Bare(shortest::plain_text(m.rst_per_sec.double())),
            now_ns,
        ),
    )
    &&& g3 == gauge_doc(
        "l4scope.new_flows_per_second"@,
        "1/s"@,
        gauge_point_doc(
            "asDouble"@,
            Json::Bare(shortest::plain_text(m.new_flow_per_sec.double())),
            now_ns,
        ),
    )
}

proof fn lemma_gauges(m: MetricsView, now_ns: u64)
    ensures
        all_write(
            otlp::gauges_list(m, now_ns),
            seq![
                gauge_doc(
                    "l4scope.active_flows"@,
                    "1"@,
                    gauge_point_doc("asInt"@, number_doc(m.active_flows as nat), now_ns),
                ),
                gauge_doc(
                    "l4scope.half_open_max"@,
                    "1"@,
                    gauge_point_doc("asInt"@, number_doc(m.half_open_max as nat), now_ns),
                ),
                gauge_doc(
                    "l4scope.rst_per_second"@,
                    "1/s"@,
                    gauge_point_doc(
                        "asDouble"@,
                        Json::Bare(shortest::plain_text(m.rst_per_sec.double())),
                        now_ns,
                    ),
                ),
                gauge_doc(
                    "l4scope.new_flows_per_second"@,
                    "1/s"@,
                    gauge_point_doc(
                        "asDouble"@,
                        Json::Bare(shortest::plain_text(m.new_flow_per_sec.double())),
                        now_ns,
                    ),
                ),
            ],
        ),
{
    lemma_whole_gauge("l4scope.active_flows"@, m.active_flows, now_ns);
    lemma_whole_gauge("l4scope.half_open_max"@, m.half_open_max, now_ns);
    lemma_rate_gauge("l4scope.rst_per_second"@, m.rst_per_sec, now_ns);
    lemma_rate_gauge("l4scope.new_flows_per_second"@, m.new_flow_per_sec, now_ns);
}

proof fn lemma_whole_gauge(name: Seq<char>, n: u64, now_ns: u64)
    ensures
        document::writes(
            otlp::gauge_metric(name, "1"@, otlp::gauge_point(n, now_ns)),
            gauge_doc(name, "1"@, gauge_point_doc("asInt"@, number_doc(n as nat), now_ns)),
        ),
        ({
            let g = gauge_doc(
                name,
                "1"@,
                gauge_point_doc("asInt"@, number_doc(n as nat), now_ns),
            );
            let points = g.get("gauge"@).get("dataPoints"@).all();
            &&& g.get("name"@) == Json::Text(name)
            &&& g.get("unit"@) == Json::Text("1"@)
            &&& points.len() == 1
            &&& points[0].get("asInt"@).is_count(n as nat)
            &&& points[0].get("timeUnixNano"@).is_count(now_ns as nat)
        }),
{
    lemma_number(n as nat);
    lemma_gauge_point(
        "asInt"@,
        json::string_text(text::dec_text(n as nat)),
        number_doc(n as nat),
        now_ns,
    );
    lemma_gauge(
        name,
        "1"@,
        otlp::gauge_point(n, now_ns),
        gauge_point_doc("asInt"@, number_doc(n as nat), now_ns),
    );
}

proof fn lemma_rate_gauge(name: Seq<char>, r: Ratio, now_ns: u64)
    ensures
        document::writes(
            otlp::gauge_metric(name, "1/s"@, otlp::rate_point(r, now_ns)),
            gauge_doc(
                name,
                "1/s"@,
                gauge_point_doc(
                    "asDouble"@,
                    Json::Bare(shortest::plain_text(r.double())),
                    now_ns,
                ),
            ),
        ),
        ({
            let g = gauge_doc(
                name,
                "1/s"@,
                gauge_point_doc(
                    "asDouble"@,
                    Json::Bare(shortest::plain_text(r.double())),
                    now_ns,
                ),
            );
            let points = g.get("gauge"@).get("dataPoints"@).all();
            &&& g.get("name"@) == Json::Text(name)
            &&& g.get("unit"@) == Json::Text("1/s"@)
            &&& points.len() == 1
            &&& points[0].get("asDouble"@) == Json::Bare(shortest::plain_text(r.double()))
            &&& points[0].get("timeUnixNano"@).is_count(now_ns as nat)
        }),
{
    let t = shortest::plain_text(r.double());
    lemma_double_writes(r.double());
    lemma_gauge_point("asDouble"@, t, Json::Bare(t), now_ns);
    lemma_gauge(
        name,
        "1/s"@,
        otlp::rate_point(r, now_ns),
        gauge_point_doc("asDouble"@, Json::Bare(t), now_ns),
    );
}

proof fn lemma_packets(total: u64, start_ns: u64, now_ns: u64) -> (packets: Json)
    ensures
        document::writes(otlp::packets_metric(total, start_ns, now_ns), packets),
        packets.get("name"@) == Json::Text("l4scope.packets"@),
        is_sum(packets),
        points_of(packets).len() == 1,
        point_reads(points_of(packets)[0], total, start_ns, now_ns),
        points_of(packets)[0].get("attributes"@) == Json::List(Seq::empty()),
{
    document::lemma_list_writes(Seq::empty(), Seq::empty());
    let none = Json::List(Seq::empty());
    lemma_sum_point(total, start_ns, now_ns, json::list_text(Seq::empty()), none);
    let point = sum_point_doc(total, start_ns, now_ns, none);
    lemma_sum(
        "l4scope.packets"@,
        seq![otlp::sum_point(total, start_ns, now_ns, json::list_text(Seq::empty()))],
        seq![point],
    );
    sum_doc("l4scope.packets"@, "1"@, seq![point])
}

proof fn lemma_report(
    m: MetricsView,
    attrs: Seq<(Seq<char>, Seq<char>)>,
    start_ns: u64,
    now_ns: u64,
) -> (r: (Json, Seq<Json>, Seq<Json>, Seq<Json>, Json, Json, Json, Json))
    ensures
        is_report(
            metrics_in(otlp::body_text(m, attrs, start_ns, now_ns)),
            m,
            start_ns,
            now_ns,
            r.0,
            r.1,
            r.2,
            r.3,
            r.4,
            r.5,
            r.6,
            r.7,
        ),
        ({
            let body = otlp::body_text(m, attrs, start_ns, now_ns);
            &&& document::read(body) is Some
            &&& (document::read(body)->0).get("resourceMetrics"@).all().len() == 1
            &&& resource_in(body).get("scopeMetrics"@).all().len() == 1
            &&& attributes_read(
                resource_in(body).get("resource"@).get("attributes"@),
                attrs.map_values(|a: (Seq<char>, Seq<char>)| a.0),
                attrs.map_values(|a: (Seq<char>, Seq<char>)| a.1),
            )
        }),
{
    let packets = lemma_packets(m.packets_total, start_ns, now_ns);
    let n2 = seq!["l4.kind"@, "severity"@];
    let n3 = seq!["k8s.pod.ip"@, "l4.kind"@, "severity"@];
    let n1 = seq!["k8s.pod.ip"@];
    let e = lemma_series("l4scope.events"@, m.event_counts, n2, start_ns, now_ns);
    let pe = lemma_series("l4scope.pod.events"@, m.pod_event_counts, n3, start_ns, now_ns);
    let pp = lemma_series("l4scope.pod.packets"@, m.pod_packets, n1, start_ns, now_ns);
    lemma_gauges(m, now_ns);
    let g0 = gauge_doc(
        "l4scope.active_flows"@,
        "1"@,
        gauge_point_doc("asInt"@, number_doc(m.active_flows as nat), now_ns),
    );
    let g1 = gauge_doc(
        "l4scope.half_open_max"@,
        "1"@,
        gauge_point_doc("asInt"@, number_doc(m.half_open_max as nat), now_ns),
    );
    let g2 = gauge_doc(
        "l4scope.rst_per_second"@,
        "1/s"@,
        gauge_point_doc(
            "asDouble"@,
            Json::Bare(shortest::plain_text(m.rst_per_sec.double())),
            now_ns,
        ),
    );
    let g3 = gauge_doc(
        "l4scope.new_flows_per_second"@,
        "1/s"@,
        gauge_point_doc(
            "asDouble"@,
            Json::Bare(shortest::plain_text(m.new_flow_per_sec.double())),
            now_ns,
        ),
    );
    let gs = seq![g0, g1, g2, g3];
    let t0 = seq![otlp::packets_metric(m.packets_total, start_ns, now_ns)];
    let t1 = otlp::series_metric("l4scope.events"@, m.event_counts, n2, start_ns, now_ns);
    let t2 = otlp::series_metric("l4scope.pod.events"@, m.pod_event_counts, n3, start_ns, now_ns);
    let t3 = otlp::series_metric("l4scope.pod.packets"@, m.pod_packets, n1, start_ns, now_ns);
    let t4 = otlp::gauges_list(m, now_ns);
    assert(all_write(t0, seq![packets]));
    lemma_all_write_concat(t0, t1, seq![packets], e);
    lemma_all_write_concat(t0 + t1, t2, seq![packets] + e, pe);
    lemma_all_write_concat(t0 + t1 + t2, t3, seq![packets] + e + pe, pp);
    lemma_all_write_concat(t0 + t1 + t2 + t3, t4, seq![packets] + e + pe + pp, gs);
    lemma_body(m, attrs, start_ns, now_ns, seq![packets] + e + pe + pp + gs);
    (packets, e, pe, pp, g0, g1, g2, g3)
}

// ---------------------------------------------------------------------------
// What a collector reads
// ---------------------------------------------------------------------------

/// The body is a JSON document of one resource, whose attributes are those given, in order,
/// with one scope.
pub proof fn law_body_reports_one_resource(
    m: MetricsView,
    attrs: Seq<(Seq<char>, Seq<char>)>,
    start_ns: u64,
    now_ns: u64,
)
    ensures
        ({
            let body = otlp::body_text(m, attrs, start_ns, now_ns);
            &&& document::read(body) is Some
            &&& (document::read(body)->0).get("resourceMetrics"@).all().len() == 1
            &&& resource_in(body).get("scopeMetrics"@).all().len() == 1
            &&& attributes_read(
                resource_in(body).get("resource"@).get("attributes"@),
                attrs.map_values(|a: (Seq<char>, Seq<char>)| a.0),
                attrs.map_values(|a: (Seq<char>, Seq<char>)| a.1),
            )
        }),
{
    let r = lemma_report(m, attrs, start_ns, now_ns);
}

/// Every count by kind and severity is posted: where there is one, the body has exactly one sum of
/// that name, with one point for each entry, which gives the entry's labels and its count.
pub proof fn law_events_are_posted(
    m: MetricsView,
    attrs: Seq<(Seq<char>, Seq<char>)>,
    start_ns: u64,
    now_ns: u64,
)
    ensures
        series_reads(
            metrics_in(otlp::body_text(m, attrs, start_ns, now_ns)),
            "l4scope.events"@,
            seq!["l4.kind"@, "severity"@],
            m.event_counts,
            start_ns,
            now_ns,
        ),
{
    let (p, e, pe, pp, g0, g1, g2, g3) = lemma_report(m, attrs, start_ns, now_ns);
    lemma_gauge_names(m, now_ns);
    lemma_metric_name_lengths();
    lemma_find(p, e, pe, pp, g0, g1, g2, g3, "l4scope.events"@);
    let docs = metrics_in(otlp::body_text(m, attrs, start_ns, now_ns));
    assert(named(docs, "l4scope.events"@) =~= e);
}

/// Every count by pod, kind and severity is posted: where there is one, the body has exactly one sum of
/// that name, with one point for each entry, which gives the entry's labels and its count.
pub proof fn law_pod_events_are_posted(
    m: MetricsView,
    attrs: Seq<(Seq<char>, Seq<char>)>,
    start_ns: u64,
    now_ns: u64,
)
    ensures
        series_reads(
            metrics_in(otlp::body_text(m, attrs, start_ns, now_ns)),
            "l4scope.pod.events"@,
            seq!["k8s.pod.ip"@, "l4.kind"@, "severity"@],
            m.pod_event_counts,
            start_ns,
            now_ns,
        ),
{
    let (p, e, pe, pp, g0, g1, g2, g3) = lemma_report(m, attrs, start_ns, now_ns);
    lemma_gauge_names(m, now_ns);
    lemma_metric_name_lengths();
    lemma_find(p, e, pe, pp, g0, g1, g2, g3, "l4scope.pod.events"@);
    let docs = metrics_in(otlp::body_text(m, attrs, start_ns, now_ns));
    assert(named(docs, "l4scope.pod.events"@) =~= pe);
}

/// Every pod's packet count is posted: where there is one, the body has exactly one sum of
/// that name, with one point for each entry, which gives the entry's labels and its count.
pub proof fn law_pod_packets_are_posted(
    m: MetricsView,
    attrs: Seq<(Seq<char>, Seq<char>)>,
    start_ns: u64,
    now_ns: u64,
)
    ensures
        series_reads(
            metrics_in(otlp::body_text(m, attrs, start_ns, now_ns)),
            "l4scope.pod.packets"@,
            seq!["k8s.pod.ip"@],
            m.pod_packets,
            start_ns,
            now_ns,
        ),
{
    let (p, e, pe, pp, g0, g1, g2, g3) = lemma_report(m, attrs, start_ns, now_ns);
    lemma_gauge_names(m, now_ns);
    lemma_metric_name_lengths();
    lemma_find(p, e, pe, pp, g0, g1, g2, g3, "l4scope.pod.packets"@);
    let docs = metrics_in(otlp::body_text(m, attrs, start_ns, now_ns));
    assert(named(docs, "l4scope.pod.packets"@) =~= pp);
}

/// The packets are posted as one sum without attributes, and the gauges as one gauge each,
/// with the number or the rate that was measured, the rate as the shortest text of its
/// double.
pub proof fn law_totals_and_gauges_are_posted(
    m: MetricsView,
    attrs: Seq<(Seq<char>, Seq<char>)>,
    start_ns: u64,
    now_ns: u64,
)
    ensures
        ({
            let ms = metrics_in(otlp::body_text(m, attrs, start_ns, now_ns));
            let found = named(ms, "l4scope.packets"@);
            &&& found.len() == 1
            &&& is_sum(found[0])
            &&& points_of(found[0]).len() == 1
            &&& point_reads(points_of(found[0])[0], m.packets_total, start_ns, now_ns)
            &&& points_of(found[0])[0].get("attributes"@) == Json::List(Seq::empty())
            &&& is_gauge(ms, "l4scope.active_flows"@, "1"@, now_ns)
            &&& gauge_in(ms, "l4scope.active_flows"@).get("asInt"@).is_count(m.active_flows as nat)
            &&& is_gauge(ms, "l4scope.half_open_max"@, "1"@, now_ns)
            &&& gauge_in(ms, "l4scope.half_open_max"@).get("asInt"@).is_count(
                m.half_open_max as nat,
            )
            &&& is_gauge(ms, "l4scope.rst_per_second"@, "1/s"@, now_ns)
            &&& gauge_in(ms, "l4scope.rst_per_second"@).get("asDouble"@) == Json::Bare(
                shortest::plain_text(m.rst_per_sec.double()),
            )
            &&& is_gauge(ms, "l4scope.new_flows_per_second"@, "1/s"@, now_ns)
            &&& gauge_in(ms, "l4scope.new_flows_per_second"@).get("asDouble"@) == Json::Bare(
                shortest::plain_text(m.new_flow_per_sec.double()),
            )
        }),
{
    let (p, e, pe, pp, g0, g1, g2, g3) = lemma_report(m, attrs, start_ns, now_ns);
    lemma_gauge_names(m, now_ns);
    lemma_metric_name_lengths();
    let ms = metrics_in(otlp::body_text(m, attrs, start_ns, now_ns));
    lemma_find(p, e, pe, pp, g0, g1, g2, g3, "l4scope.packets"@);
    assert(named(ms, "l4scope.packets"@) =~= seq![p]);
    lemma_find(p, e, pe, pp, g0, g1, g2, g3, "l4scope.active_flows"@);
    assert(named(ms, "l4scope.active_flows"@) =~= seq![g0]);
    lemma_find(p, e, pe, pp, g0, g1, g2, g3, "l4scope.half_open_max"@);
    assert(named(ms, "l4scope.half_open_max"@) =~= seq![g1]);
    lemma_find(p, e, pe, pp, g0, g1, g2, g3, "l4scope.rst_per_second"@);
    assert(named(ms, "l4scope.rst_per_second"@) =~= seq![g2]);
    lemma_find(p, e, pe, pp, g0, g1, g2, g3, "l4scope.new_flows_per_second"@);
    assert(named(ms, "l4scope.new_flows_per_second"@) =~= seq![g3]);
    lemma_whole_gauge("l4scope.active_flows"@, m.active_flows, now_ns);
    lemma_whole_gauge("l4scope.half_open_max"@, m.half_open_max, now_ns);
    lemma_rate_gauge("l4scope.rst_per_second"@, m.rst_per_sec, now_ns);
    lemma_rate_gauge("l4scope.new_flows_per_second"@, m.new_flow_per_sec, now_ns);
}

proof fn lemma_gauge_names(m: MetricsView, now_ns: u64)
    ensures
        gauge_doc(
            "l4scope.active_flows"@,
            "1"@,
            gauge_point_doc("asInt"@, number_doc(m.active_flows as nat), now_ns),
        ).get("name"@) == Json::Text("l4scope.active_flows"@),
        gauge_doc(
            "l4scope.half_open_max"@,
            "1"@,
            gauge_point_doc("asInt"@, number_doc(m.half_open_max as nat), now_ns),
        ).get("name"@) == Json::Text("l4scope.half_open_max"@),
        gauge_doc(
            "l4scope.rst_per_second"@,
            "1/s"@,
            gauge_point_doc(
                "asDouble"@,
                Json::Bare(shortest::plain_text(m.rst_per_sec.double())),
                now_ns,
            ),
        ).get("name"@) == Json::Text("l4scope.rst_per_second"@),
        gauge_doc(
            "l4scope.new_flows_per_second"@,
            "1/s"@,
            gauge_point_doc(
                "asDouble"@,
                Json::Bare(shortest::plain_text(m.new_flow_per_sec.double())),
                now_ns,
            ),
        ).get("name"@) == Json::Text("l4scope.new_flows_per_second"@),
{
    lemma_whole_gauge("l4scope.active_flows"@, m.active_flows, now_ns);
    lemma_whole_gauge("l4scope.half_open_max"@, m.half_open_max, now_ns);
    lemma_rate_gauge("l4scope.rst_per_second"@, m.rst_per_sec, now_ns);
    lemma_rate_gauge("l4scope.new_flows_per_second"@, m.new_flow_per_sec, now_ns);
}

/// An event's line is read back as the event: its time, kind, severity, protocol, both
/// endpoints, its value with three decimals and its explanation, and nothing more.
pub proof fn law_events_read_back(e: crate::types::EventView)
    ensures
        ({
            let doc = document::read(e.json());
            let j = doc->0;
            &&& doc is Some
            &&& j matches Json::Object(ms) && ms.len() == 8
            &&& j.get("ts_ns"@) matches Json::Bare(t) && text::all_digits(t) && text::dec_value(t)
                == e.ts_nanos
            &&& j.get("kind"@) == Json::Text(e.kind.label())
            &&& j.get("severity"@) == Json::Text(e.severity.label())
            &&& j.get("proto"@) == Json::Text(e.key.proto.label())
            &&& j.get("low"@) == Json::Text(e.key.low.text())
            &&& j.get("high"@) == Json::Text(e.key.high.text())
            &&& j.get("value"@) == Json::Bare(e.value.fixed_text(3))
            &&& j.get("detail"@) == Json::Text(e.detail)
        }),
{
    lemma_whole_writes(e.ts_nanos as nat);
    text::lemma_dec_text_value(e.ts_nanos as nat);
    lemma_fixed_writes(e.value, 3);
    document::lemma_string_writes(e.kind.label());
    document::lemma_string_writes(e.severity.label());
    document::lemma_string_writes(e.key.proto.label());
    document::lemma_string_writes(e.key.low.text());
    document::lemma_string_writes(e.key.high.text());
    document::lemma_string_writes(e.detail);
    let ms = seq![
        ("ts_ns"@, Json::Bare(text::dec_text(e.ts_nanos as nat))),
        ("kind"@, Json::Text(e.kind.label())),
        ("severity"@, Json::Text(e.severity.label())),
        ("proto"@, Json::Text(e.key.proto.label())),
        ("low"@, Json::Text(e.key.low.text())),
        ("high"@, Json::Text(e.key.high.text())),
        ("value"@, Json::Bare(e.value.fixed_text(3))),
        ("detail"@, Json::Text(e.detail)),
    ];
    document::lemma_object_writes(e.members(), ms);
    document::lemma_written_is_read(e.json(), Json::Object(ms));
    lemma_event_names();
    lemma_get(ms, 0);
    lemma_get(ms, 1);
    lemma_get(ms, 2);
    lemma_get(ms, 3);
    lemma_get(ms, 4);
    lemma_get(ms, 5);
    lemma_get(ms, 6);
    lemma_get(ms, 7);
}

proof fn lemma_event_names()
    ensures
        "ts_ns"@[0] == 't',
        "kind"@[0] == 'k',
        "severity"@[0] == 's',
        "proto"@[0] == 'p',
        "low"@[0] == 'l',
        "high"@[0] == 'h',
        "value"@[0] == 'v',
        "detail"@[0] == 'd',
{
    reveal_strlit("ts_ns");
    reveal_strlit("kind");
    reveal_strlit("severity");
    reveal_strlit("proto");
    reveal_strlit("low");
    reveal_strlit("high");
    reveal_strlit("value");
    reveal_strlit("detail");
}

} // verus!
