//! What a reader of the Prometheus text finds in it.

use vstd::prelude::*;

use crate::metrics::MetricsView;
use crate::number::Ratio;
use crate::series;
use crate::series::SeriesView;
use crate::text;

verus! {

/// What follows `head` on those of the lines that start with it.
pub open spec fn picked(lines: Seq<Seq<char>>, head: Seq<char>) -> Seq<Seq<char>>
    decreases lines.len(),
{
    if lines.len() == 0 {
        Seq::empty()
    } else {
        let rest = picked(lines.skip(1), head);
        if text::has_prefix(lines[0], head) {
            seq![lines[0].skip(head.len() as int)] + rest
        } else {
            rest
        }
    }
}

/// What follows `head` on those lines of a text that start with it, in order.
pub open spec fn readings(t: Seq<char>, head: Seq<char>) -> Seq<Seq<char>> {
    picked(text::split_on(t, '\n'), head)
}

/// The text has exactly one line that starts with `head`, and the rest of it writes `n` in
/// decimal.
pub open spec fn reads(t: Seq<char>, head: Seq<char>, n: nat) -> bool {
    let r = readings(t, head);
    &&& r.len() == 1
    &&& r[0].len() >= 1
    &&& text::all_digits(r[0])
    &&& text::dec_value(r[0]) == n
}

/// The start of the line that counts events of a kind and severity.
pub open spec fn event_head(kind: Seq<char>, severity: Seq<char>) -> Seq<char> {
    "l4scope_events{kind=\""@ + (kind + ("\",severity=\""@ + (severity + "\"} "@)))
}

/// The start of the line that counts a pod's events of a kind and severity.
pub open spec fn pod_event_head(
    pod_ip: Seq<char>,
    kind: Seq<char>,
    severity: Seq<char>,
) -> Seq<char> {
    "l4scope_pod_events{pod_ip=\""@ + (pod_ip + ("\",kind=\""@ + (kind + ("\",severity=\""@
        + (severity
        + "\"} "@)))))
}

/// The start of the line that counts a pod's packets.
pub open spec fn pod_packet_head(pod_ip: Seq<char>) -> Seq<char> {
    "l4scope_pod_packets_total{pod_ip=\""@ + (pod_ip + "\"} "@)
}

/// The label can stand between quotes on a line.
pub open spec fn is_clean(label: Seq<char>) -> bool {
    !label.contains('"') && !label.contains('\n')
}

/// Every entry has `n` labels, all clean.
pub open spec fn has_clean_labels(s: SeriesView, n: nat) -> bool {
    forall|i: int|
        #![trigger s[i]]
        0 <= i < s.len() ==> s[i].0.len() == n && forall|j: int|
            0 <= j < n ==> is_clean(#[trigger] s[i].0[j])
}

/// Every label of the metrics is clean.
pub open spec fn is_readable(m: MetricsView) -> bool {
    &&& has_clean_labels(m.event_counts, 2)
    &&& has_clean_labels(m.pod_event_counts, 3)
    &&& has_clean_labels(m.pod_packets, 1)
}

// ---------------------------------------------------------------------------
// Lines
// ---------------------------------------------------------------------------

/// The text is empty or ends its last line.
spec fn is_ended(t: Seq<char>) -> bool {
    t.len() == 0 || t.last() == '\n'
}

proof fn lemma_picked_concat(a: Seq<Seq<char>>, b: Seq<Seq<char>>, head: Seq<char>)
    ensures
        picked(a + b, head) == picked(a, head) + picked(b, head),
    decreases a.len(),
{
    if a.len() == 0 {
        assert(a + b =~= b);
    } else {
        lemma_picked_concat(a.skip(1), b, head);
        assert((a + b).skip(1) =~= a.skip(1) + b);
        assert(picked(a + b, head) =~= picked(a, head) + picked(b, head));
    }
}

/// What is read from a line behind an ended text is read in addition.
proof fn lemma_one_line(x: Seq<char>, line: Seq<char>, head: Seq<char>)
    requires
        is_ended(x),
        !line.contains('\n'),
        head.len() > 0,
    ensures
        is_ended(x + line + seq!['\n']),
        readings(x + line + seq!['\n'], head) == readings(x, head) + (if text::has_prefix(
            line,
            head,
        ) {
            seq![line.skip(head.len() as int)]
        } else {
            Seq::empty()
        }),
    decreases x.len(),
{
    let t = x + line + seq!['\n'];
    let none = Seq::<char>::empty();
    let more = if text::has_prefix(line, head) {
        seq![line.skip(head.len() as int)]
    } else {
        Seq::empty()
    };
    assert(picked(seq![none], head) == Seq::<Seq<char>>::empty()) by {
        assert(seq![none].skip(1) =~= Seq::<Seq<char>>::empty());
        assert(picked(seq![none].skip(1), head) == Seq::<Seq<char>>::empty());
    }
    if x.len() == 0 {
        text::lemma_split_step(line, '\n', none);
        assert(line + seq!['\n'] + none =~= t);
        text::lemma_split_whole(none, '\n');
        text::lemma_split_whole(x, '\n');
        assert(x =~= none);
        lemma_picked_concat(seq![line], seq![none], head);
        assert(seq![line].skip(1) =~= Seq::<Seq<char>>::empty());
        assert(picked(seq![line].skip(1), head) == Seq::<Seq<char>>::empty());
        assert(readings(t, head) =~= more);
        assert(readings(x, head) + more =~= more);
    } else {
        let i = text::first_at(x, '\n');
        text::lemma_first_at(x, '\n');
        if i == x.len() {
            assert(x[x.len() - 1] == '\n');
            assert(false);
        }
        let first = x.take(i);
        let rest = x.skip(i + 1);
        assert(!first.contains('\n')) by {
            if first.contains('\n') {
                let k = choose|k: int| 0 <= k < first.len() && first[k] == '\n';
                assert(x[k] == '\n');
            }
        }
        assert(is_ended(rest));
        lemma_one_line(rest, line, head);
        let u = rest + line + seq!['\n'];
        text::lemma_split_step(first, '\n', u);
        text::lemma_split_step(first, '\n', rest);
        assert(first + seq!['\n'] + u =~= t);
        assert(first + seq!['\n'] + rest =~= x);
        lemma_picked_concat(seq![first], text::split_on(u, '\n'), head);
        lemma_picked_concat(seq![first], text::split_on(rest, '\n'), head);
        let p = picked(seq![first], head);
        assert(p + (readings(rest, head) + more) =~= (p + readings(rest, head)) + more);
    }
}

proof fn lemma_number_line(x: Seq<char>, name: Seq<char>, value: Seq<char>, head: Seq<char>)
    requires
        is_ended(x),
        !name.contains('\n'),
        !value.contains('\n'),
        head.len() > 0,
    ensures
        is_ended(x + name + value + "\n"@),
        readings(x + name + value + "\n"@, head) == readings(x, head) + (if text::has_prefix(
            name + value,
            head,
        ) {
            seq![(name + value).skip(head.len() as int)]
        } else {
            Seq::empty()
        }),
{
    reveal_strlit("\n");
    let line = name + value;
    assert(!line.contains('\n')) by {
        if line.contains('\n') {
            let k = choose|k: int| 0 <= k < line.len() && line[k] == '\n';
            if k < name.len() {
                assert(name[k] == '\n');
            } else {
                assert(value[k - name.len()] == '\n');
            }
        }
    }
    lemma_one_line(x, line, head);
    assert(x + name + value + "\n"@ =~= x + line + seq!['\n']);
}

/// The text is one line that starts with `#`.
spec fn is_comment(c: Seq<char>) -> bool {
    &&& c.len() >= 2
    &&& c[0] == '#'
    &&& c.last() == '\n'
    &&& !c.drop_last().contains('\n')
}

proof fn lemma_comment(x: Seq<char>, c: Seq<char>, head: Seq<char>)
    requires
        is_ended(x),
        is_comment(c),
        head.len() > 0,
        head[0] == 'l',
    ensures
        is_ended(x + c),
        readings(x + c, head) == readings(x, head),
{
    let line = c.drop_last();
    lemma_one_line(x, line, head);
    assert(x + line + seq!['\n'] =~= x + c);
    if text::has_prefix(line, head) {
        assert(line.take(head.len() as int)[0] == head[0]);
    }
    assert(readings(x, head) + Seq::<Seq<char>>::empty() =~= readings(x, head));
}

proof fn lemma_digits_are_clean(n: nat)
    ensures
        !text::dec_text(n).contains('\n'),
        !text::dec_text(n).contains('"'),
{
    text::lemma_dec_text_value(n);
}

proof fn lemma_differs(line: Seq<char>, head: Seq<char>, i: int)
    requires
        0 <= i < head.len(),
        i < line.len() ==> line[i] != head[i],
    ensures
        !text::has_prefix(line, head),
{
    if text::has_prefix(line, head) {
        assert(line.take(head.len() as int)[i] == head[i]);
    }
}

// ---------------------------------------------------------------------------
// Labels
// ---------------------------------------------------------------------------

proof fn lemma_strip(p: Seq<char>, x: Seq<char>, y: Seq<char>)
    ensures
        text::has_prefix(p + x, p + y) == text::has_prefix(x, y),
{
    let a = p + x;
    let b = p + y;
    if text::has_prefix(a, b) {
        assert(x.take(y.len() as int) =~= y) by {
            assert forall|i: int| 0 <= i < y.len() implies x[i] == y[i] by {
                assert(a.take(b.len() as int)[p.len() + i] == b[p.len() + i]);
            }
        }
    }
    if text::has_prefix(x, y) {
        assert(a.take(b.len() as int) =~= b) by {
            assert forall|i: int| 0 <= i < b.len() implies a[i] == b[i] by {
                if i >= p.len() {
                    assert(x.take(y.len() as int)[i - p.len()] == y[i - p.len()]);
                }
            }
        }
    }
}

/// A label is told by the quote behind it.
proof fn lemma_label(a: Seq<char>, x: Seq<char>, b: Seq<char>, y: Seq<char>)
    requires
        !a.contains('"'),
        !b.contains('"'),
        x.len() > 0,
        x[0] == '"',
        y.len() > 0,
        y[0] == '"',
    ensures
        text::has_prefix(a + x, b + y) == (a == b && text::has_prefix(x, y)),
{
    let s = a + x;
    let h = b + y;
    if text::has_prefix(s, h) {
        let t = s.take(h.len() as int);
        if a.len() < b.len() {
            assert(t[a.len() as int] == h[a.len() as int]);
            assert(b.contains(b[a.len() as int]));
        }
        if b.len() < a.len() {
            assert(t[b.len() as int] == h[b.len() as int]);
            assert(a.contains(a[b.len() as int]));
        }
        assert(a =~= b) by {
            assert forall|i: int| 0 <= i < a.len() implies a[i] == b[i] by {
                assert(t[i] == h[i]);
            }
        }
        lemma_strip(a, x, y);
    }
    if a == b && text::has_prefix(x, y) {
        lemma_strip(a, x, y);
    }
}

/// The count's text where an entry of the series has the labels.
spec fn read_of(s: SeriesView, labels: Seq<Seq<char>>) -> Seq<Seq<char>>
    decreases s.len(),
{
    if s.len() == 0 {
        Seq::empty()
    } else {
        let rest = read_of(s.drop_last(), labels);
        if s.last().0 == labels {
            rest.push(text::dec_text(s.last().1 as nat))
        } else {
            rest
        }
    }
}

proof fn lemma_same_event_head(a: Seq<Seq<char>>, b: Seq<Seq<char>>, v: Seq<char>)
    requires
        a.len() == 2,
        b.len() == 2,
        forall|i: int| 0 <= i < 2 ==> is_clean(#[trigger] a[i]),
        forall|i: int| 0 <= i < 2 ==> is_clean(#[trigger] b[i]),
    ensures
        text::has_prefix(event_head(a[0], a[1]) + v, event_head(b[0], b[1])) == (a == b),
        (event_head(a[0], a[1]) + v).skip(event_head(a[0], a[1]).len() as int) == v,
{
    reveal_strlit("l4scope_events{kind=\"");
    reveal_strlit("\",severity=\"");
    reveal_strlit("\"} ");
    let s = event_head(a[0], a[1]) + v;
    let h = event_head(b[0], b[1]);
    assert(s =~= ("l4scope_events{kind=\""@ + (a[0] + ("\",severity=\""@ + (a[1] + ("\"} "@
        + v))))));
    lemma_strip("l4scope_events{kind=\""@, (a[0] + ("\",severity=\""@ + (a[1] + ("\"} "@ + v)))),
        (b[0] + ("\",severity=\""@ + (b[1] + "\"} "@))));
    lemma_label(a[0], ("\",severity=\""@ + (a[1] + ("\"} "@ + v))), b[0], ("\",severity=\""@
        + (b[1] + "\"} "@)));
    lemma_strip("\",severity=\""@, (a[1] + ("\"} "@ + v)), (b[1] + "\"} "@));
    lemma_label(a[1], ("\"} "@ + v), b[1], "\"} "@);
    assert(("\"} "@ + v).take(3) =~= "\"} "@);
    assert((h + v).skip(h.len() as int) =~= v);
    assert((event_head(a[0], a[1]) + v).skip(event_head(a[0], a[1]).len() as int) =~= v);
    if a[0] == b[0] && a[1] == b[1] {
        assert(a =~= b);
    }
}

proof fn lemma_event_line_is_clean(labels: Seq<Seq<char>>)
    requires
        labels.len() == 2,
        forall|i: int| 0 <= i < 2 ==> is_clean(#[trigger] labels[i]),
    ensures
        !event_head(labels[0], labels[1]).contains('\n'),
{
    reveal_strlit("l4scope_events{kind=\"");
    reveal_strlit("\",severity=\"");
    reveal_strlit("\"} ");
    let h = event_head(labels[0], labels[1]);
    if h.contains('\n') {
        let k = choose|k: int| 0 <= k < h.len() && h[k] == '\n';
        let c0 = "l4scope_events{kind=\""@.len();
        let c1 = labels[0].len();
        let c2 = "\",severity=\""@.len();
        let c3 = labels[1].len();
        let c4 = "\"} "@.len();
        if k < c0 {
            assert("l4scope_events{kind=\""@[k - (0)] == '\n');
        }
        if c0 <= k && k < c0 + c1 {
            assert(labels[0][k - (c0)] == '\n');
        }
        if c0 + c1 <= k && k < c0 + c1 + c2 {
            assert("\",severity=\""@[k - (c0 + c1)] == '\n');
        }
        if c0 + c1 + c2 <= k && k < c0 + c1 + c2 + c3 {
            assert(labels[1][k - (c0 + c1 + c2)] == '\n');
        }
        if c0 + c1 + c2 + c3 <= k && k < c0 + c1 + c2 + c3 + c4 {
            assert("\"} "@[k - (c0 + c1 + c2 + c3)] == '\n');
        }
    }
}

proof fn lemma_event_line_text(m: MetricsView, n: nat)
    requires
        0 < n <= m.event_counts.len(),
    ensures
        ({
            let e = m.event_counts[n - 1];
            m.event_lines(n) == m.event_lines((n - 1) as nat) + (event_head(e.0[0], e.0[1])
                + text::dec_text(e.1 as nat)
                + "\n"@)
        }),
{
    let e = m.event_counts[n - 1];
    assert(m.event_lines(n) =~= m.event_lines((n - 1) as nat) + (event_head(e.0[0], e.0[1])
        + text::dec_text(e.1 as nat)
        + "\n"@));
}

/// The first `n` lines of the series, behind an ended text: a line is read exactly where
/// its labels are asked for.
proof fn lemma_event_lines(m: MetricsView, x: Seq<char>, n: nat, labels: Seq<Seq<char>>)
    requires
        is_ended(x),
        n <= m.event_counts.len(),
        has_clean_labels(m.event_counts, 2),
        series::is_sorted(m.event_counts),
        labels.len() == 2,
        forall|i: int| 0 <= i < 2 ==> is_clean(#[trigger] labels[i]),
    ensures
        is_ended(x + m.event_lines(n)),
        readings(x + m.event_lines(n), event_head(labels[0], labels[1])) == readings(x,
            event_head(labels[0], labels[1]))
            + read_of(m.event_counts.take(n as int), labels),
    decreases n,
{
    let h = event_head(labels[0], labels[1]);
    reveal_strlit("l4scope_events{kind=\"");
    if n == 0 {
        assert(x + m.event_lines(n) =~= x);
        assert(m.event_counts.take(0).len() == 0);
        assert(readings(x, h) + read_of(m.event_counts.take(0), labels) =~= readings(x, h));
    } else {
        let k = (n - 1) as nat;
        let e = m.event_counts[n - 1];
        lemma_event_lines(m, x, k, labels);
        lemma_event_line_is_clean(e.0);
        lemma_digits_are_clean(e.1 as nat);
        let before = m.event_lines(k);
        let v = text::dec_text(e.1 as nat);
        lemma_number_line(x + before, event_head(e.0[0], e.0[1]), v, h);
        lemma_same_event_head(e.0, labels, v);
        lemma_event_line_text(m, n);
        lemma_assoc(x, before, event_head(e.0[0], e.0[1]) + v + "\n"@);
        lemma_assoc3(x + before, event_head(e.0[0], e.0[1]), v, "\n"@);
        assert(m.event_counts.take(n as int).drop_last() =~= m.event_counts.take(k as int));
        let found = if e.0 == labels {
            seq![v]
        } else {
            Seq::empty()
        };
        if e.0 == labels {
            assert((event_head(e.0[0], e.0[1]) + v).skip(h.len() as int) == v);
        }
        let seen = read_of(m.event_counts.take(k as int), labels);
        assert(readings(x, h) + seen + found =~= readings(x, h) + read_of(
            m.event_counts.take(n as int),
            labels,
        ));
    }
}

proof fn lemma_same_pod_event_head(a: Seq<Seq<char>>, b: Seq<Seq<char>>, v: Seq<char>)
    requires
        a.len() == 3,
        b.len() == 3,
        forall|i: int| 0 <= i < 3 ==> is_clean(#[trigger] a[i]),
        forall|i: int| 0 <= i < 3 ==> is_clean(#[trigger] b[i]),
    ensures
        text::has_prefix(pod_event_head(a[0], a[1], a[2]) + v, pod_event_head(b[0], b[1], b[2]))
            == (a == b),
        (pod_event_head(a[0], a[1], a[2]) + v).skip(pod_event_head(a[0], a[1], a[2]).len() as int)
            == v,
{
    reveal_strlit("l4scope_pod_events{pod_ip=\"");
    reveal_strlit("\",kind=\"");
    reveal_strlit("\",severity=\"");
    reveal_strlit("\"} ");
    let s = pod_event_head(a[0], a[1], a[2]) + v;
    let h = pod_event_head(b[0], b[1], b[2]);
    assert(s =~= ("l4scope_pod_events{pod_ip=\""@ + (a[0] + ("\",kind=\""@ + (a[1]
        + ("\",severity=\""@ + (a[2] + ("\"} "@ + v))))))));
    lemma_strip("l4scope_pod_events{pod_ip=\""@, (a[0] + ("\",kind=\""@ + (a[1]
        + ("\",severity=\""@ + (a[2] + ("\"} "@ + v)))))), (b[0] + ("\",kind=\""@ + (b[1]
        + ("\",severity=\""@ + (b[2] + "\"} "@))))));
    lemma_label(a[0], ("\",kind=\""@ + (a[1] + ("\",severity=\""@ + (a[2] + ("\"} "@ + v))))),
        b[0], ("\",kind=\""@ + (b[1] + ("\",severity=\""@ + (b[2] + "\"} "@)))));
    lemma_strip("\",kind=\""@, (a[1] + ("\",severity=\""@ + (a[2] + ("\"} "@ + v)))), (b[1]
        + ("\",severity=\""@ + (b[2] + "\"} "@))));
    lemma_label(a[1], ("\",severity=\""@ + (a[2] + ("\"} "@ + v))), b[1], ("\",severity=\""@
        + (b[2] + "\"} "@)));
    lemma_strip("\",severity=\""@, (a[2] + ("\"} "@ + v)), (b[2] + "\"} "@));
    lemma_label(a[2], ("\"} "@ + v), b[2], "\"} "@);
    assert(("\"} "@ + v).take(3) =~= "\"} "@);
    assert((h + v).skip(h.len() as int) =~= v);
    assert((pod_event_head(a[0], a[1], a[2]) + v).skip(pod_event_head(a[0], a[1],
        a[2]).len() as int) =~= v);
    if a[0] == b[0] && a[1] == b[1] && a[2] == b[2] {
        assert(a =~= b);
    }
}

proof fn lemma_pod_event_line_is_clean(labels: Seq<Seq<char>>)
    requires
        labels.len() == 3,
        forall|i: int| 0 <= i < 3 ==> is_clean(#[trigger] labels[i]),
    ensures
        !pod_event_head(labels[0], labels[1], labels[2]).contains('\n'),
{
    reveal_strlit("l4scope_pod_events{pod_ip=\"");
    reveal_strlit("\",kind=\"");
    reveal_strlit("\",severity=\"");
    reveal_strlit("\"} ");
    let h = pod_event_head(labels[0], labels[1], labels[2]);
    if h.contains('\n') {
        let k = choose|k: int| 0 <= k < h.len() && h[k] == '\n';
        let c0 = "l4scope_pod_events{pod_ip=\""@.len();
        let c1 = labels[0].len();
        let c2 = "\",kind=\""@.len();
        let c3 = labels[1].len();
        let c4 = "\",severity=\""@.len();
        let c5 = labels[2].len();
        let c6 = "\"} "@.len();
        if k < c0 {
            assert("l4scope_pod_events{pod_ip=\""@[k - (0)] == '\n');
        }
        if c0 <= k && k < c0 + c1 {
            assert(labels[0][k - (c0)] == '\n');
        }
        if c0 + c1 <= k && k < c0 + c1 + c2 {
            assert("\",kind=\""@[k - (c0 + c1)] == '\n');
        }
        if c0 + c1 + c2 <= k && k < c0 + c1 + c2 + c3 {
            assert(labels[1][k - (c0 + c1 + c2)] == '\n');
        }
        if c0 + c1 + c2 + c3 <= k && k < c0 + c1 + c2 + c3 + c4 {
            assert("\",severity=\""@[k - (c0 + c1 + c2 + c3)] == '\n');
        }
        if c0 + c1 + c2 + c3 + c4 <= k && k < c0 + c1 + c2 + c3 + c4 + c5 {
            assert(labels[2][k - (c0 + c1 + c2 + c3 + c4)] == '\n');
        }
        if c0 + c1 + c2 + c3 + c4 + c5 <= k && k < c0 + c1 + c2 + c3 + c4 + c5 + c6 {
            assert("\"} "@[k - (c0 + c1 + c2 + c3 + c4 + c5)] == '\n');
        }
    }
}

proof fn lemma_pod_event_line_text(m: MetricsView, n: nat)
    requires
        0 < n <= m.pod_event_counts.len(),
    ensures
        ({
            let e = m.pod_event_counts[n - 1];
            m.pod_event_lines(n) == m.pod_event_lines((n - 1) as nat) + (pod_event_head(e.0[0],
                e.0[1], e.0[2]) + text::dec_text(e.1 as nat)
                + "\n"@)
        }),
{
    let e = m.pod_event_counts[n - 1];
    assert(m.pod_event_lines(n) =~= m.pod_event_lines((n - 1) as nat) + (pod_event_head(e.0[0],
        e.0[1], e.0[2]) + text::dec_text(e.1 as nat)
        + "\n"@));
}

/// The first `n` lines of the series, behind an ended text: a line is read exactly where
/// its labels are asked for.
proof fn lemma_pod_event_lines(m: MetricsView, x: Seq<char>, n: nat, labels: Seq<Seq<char>>)
    requires
        is_ended(x),
        n <= m.pod_event_counts.len(),
        has_clean_labels(m.pod_event_counts, 3),
        series::is_sorted(m.pod_event_counts),
        labels.len() == 3,
        forall|i: int| 0 <= i < 3 ==> is_clean(#[trigger] labels[i]),
    ensures
        is_ended(x + m.pod_event_lines(n)),
        readings(x + m.pod_event_lines(n), pod_event_head(labels[0], labels[1], labels[2]))
            == readings(x, pod_event_head(labels[0], labels[1], labels[2]))
            + read_of(m.pod_event_counts.take(n as int), labels),
    decreases n,
{
    let h = pod_event_head(labels[0], labels[1], labels[2]);
    reveal_strlit("l4scope_pod_events{pod_ip=\"");
    if n == 0 {
        assert(x + m.pod_event_lines(n) =~= x);
        assert(m.pod_event_counts.take(0).len() == 0);
        assert(readings(x, h) + read_of(m.pod_event_counts.take(0), labels) =~= readings(x, h));
    } else {
        let k = (n - 1) as nat;
        let e = m.pod_event_counts[n - 1];
        lemma_pod_event_lines(m, x, k, labels);
        lemma_pod_event_line_is_clean(e.0);
        lemma_digits_are_clean(e.1 as nat);
        let before = m.pod_event_lines(k);
        let v = text::dec_text(e.1 as nat);
        lemma_number_line(x + before, pod_event_head(e.0[0], e.0[1], e.0[2]), v, h);
        lemma_same_pod_event_head(e.0, labels, v);
        lemma_pod_event_line_text(m, n);
        lemma_assoc(x, before, pod_event_head(e.0[0], e.0[1], e.0[2]) + v + "\n"@);
        lemma_assoc3(x + before, pod_event_head(e.0[0], e.0[1], e.0[2]), v, "\n"@);
        assert(m.pod_event_counts.take(n as int).drop_last() =~= m.pod_event_counts.take(k as int));
        let found = if e.0 == labels {
            seq![v]
        } else {
            Seq::empty()
        };
        if e.0 == labels {
            assert((pod_event_head(e.0[0], e.0[1], e.0[2]) + v).skip(h.len() as int) == v);
        }
        let seen = read_of(m.pod_event_counts.take(k as int), labels);
        assert(readings(x, h) + seen + found =~= readings(x, h) + read_of(
            m.pod_event_counts.take(n as int),
            labels,
        ));
    }
}

proof fn lemma_same_pod_packet_head(a: Seq<Seq<char>>, b: Seq<Seq<char>>, v: Seq<char>)
    requires
        a.len() == 1,
        b.len() == 1,
        forall|i: int| 0 <= i < 1 ==> is_clean(#[trigger] a[i]),
        forall|i: int| 0 <= i < 1 ==> is_clean(#[trigger] b[i]),
    ensures
        text::has_prefix(pod_packet_head(a[0]) + v, pod_packet_head(b[0])) == (a == b),
        (pod_packet_head(a[0]) + v).skip(pod_packet_head(a[0]).len() as int) == v,
{
    reveal_strlit("l4scope_pod_packets_total{pod_ip=\"");
    reveal_strlit("\"} ");
    let s = pod_packet_head(a[0]) + v;
    let h = pod_packet_head(b[0]);
    assert(s =~= ("l4scope_pod_packets_total{pod_ip=\""@ + (a[0] + ("\"} "@ + v))));
    lemma_strip("l4scope_pod_packets_total{pod_ip=\""@, (a[0] + ("\"} "@ + v)), (b[0] + "\"} "@));
    lemma_label(a[0], ("\"} "@ + v), b[0], "\"} "@);
    assert(("\"} "@ + v).take(3) =~= "\"} "@);
    assert((h + v).skip(h.len() as int) =~= v);
    assert((pod_packet_head(a[0]) + v).skip(pod_packet_head(a[0]).len() as int) =~= v);
    if a[0] == b[0] {
        assert(a =~= b);
    }
}

proof fn lemma_pod_packet_line_is_clean(labels: Seq<Seq<char>>)
    requires
        labels.len() == 1,
        forall|i: int| 0 <= i < 1 ==> is_clean(#[trigger] labels[i]),
    ensures
        !pod_packet_head(labels[0]).contains('\n'),
{
    reveal_strlit("l4scope_pod_packets_total{pod_ip=\"");
    reveal_strlit("\"} ");
    let h = pod_packet_head(labels[0]);
    if h.contains('\n') {
        let k = choose|k: int| 0 <= k < h.len() && h[k] == '\n';
        let c0 = "l4scope_pod_packets_total{pod_ip=\""@.len();
        let c1 = labels[0].len();
        let c2 = "\"} "@.len();
        if k < c0 {
            assert("l4scope_pod_packets_total{pod_ip=\""@[k - (0)] == '\n');
        }
        if c0 <= k && k < c0 + c1 {
            assert(labels[0][k - (c0)] == '\n');
        }
        if c0 + c1 <= k && k < c0 + c1 + c2 {
            assert("\"} "@[k - (c0 + c1)] == '\n');
        }
    }
}

proof fn lemma_pod_packet_line_text(m: MetricsView, n: nat)
    requires
        0 < n <= m.pod_packets.len(),
    ensures
        ({
            let e = m.pod_packets[n - 1];
            m.pod_packet_lines(n) == m.pod_packet_lines((n - 1) as nat) + (pod_packet_head(e.0[0])
                + text::dec_text(e.1 as nat)
                + "\n"@)
        }),
{
    let e = m.pod_packets[n - 1];
    assert(m.pod_packet_lines(n) =~= m.pod_packet_lines((n - 1) as nat) + (pod_packet_head(e.0[0])
        + text::dec_text(e.1 as nat)
        + "\n"@));
}

/// The first `n` lines of the series, behind an ended text: a line is read exactly where
/// its labels are asked for.
proof fn lemma_pod_packet_lines(m: MetricsView, x: Seq<char>, n: nat, labels: Seq<Seq<char>>)
    requires
        is_ended(x),
        n <= m.pod_packets.len(),
        has_clean_labels(m.pod_packets, 1),
        series::is_sorted(m.pod_packets),
        labels.len() == 1,
        forall|i: int| 0 <= i < 1 ==> is_clean(#[trigger] labels[i]),
    ensures
        is_ended(x + m.pod_packet_lines(n)),
        readings(x + m.pod_packet_lines(n), pod_packet_head(labels[0])) == readings(x,
            pod_packet_head(labels[0]))
            + read_of(m.pod_packets.take(n as int), labels),
    decreases n,
{
    let h = pod_packet_head(labels[0]);
    reveal_strlit("l4scope_pod_packets_total{pod_ip=\"");
    if n == 0 {
        assert(x + m.pod_packet_lines(n) =~= x);
        assert(m.pod_packets.take(0).len() == 0);
        assert(readings(x, h) + read_of(m.pod_packets.take(0), labels) =~= readings(x, h));
    } else {
        let k = (n - 1) as nat;
        let e = m.pod_packets[n - 1];
        lemma_pod_packet_lines(m, x, k, labels);
        lemma_pod_packet_line_is_clean(e.0);
        lemma_digits_are_clean(e.1 as nat);
        let before = m.pod_packet_lines(k);
        let v = text::dec_text(e.1 as nat);
        lemma_number_line(x + before, pod_packet_head(e.0[0]), v, h);
        lemma_same_pod_packet_head(e.0, labels, v);
        lemma_pod_packet_line_text(m, n);
        lemma_assoc(x, before, pod_packet_head(e.0[0]) + v + "\n"@);
        lemma_assoc3(x + before, pod_packet_head(e.0[0]), v, "\n"@);
        assert(m.pod_packets.take(n as int).drop_last() =~= m.pod_packets.take(k as int));
        let found = if e.0 == labels {
            seq![v]
        } else {
            Seq::empty()
        };
        if e.0 == labels {
            assert((pod_packet_head(e.0[0]) + v).skip(h.len() as int) == v);
        }
        let seen = read_of(m.pod_packets.take(k as int), labels);
        assert(readings(x, h) + seen + found =~= readings(x, h) + read_of(
            m.pod_packets.take(n as int),
            labels,
        ));
    }
}

// ---------------------------------------------------------------------------
// The whole text
// ---------------------------------------------------------------------------

/// What is read from a line of a name and a value.
spec fn line_read(name: Seq<char>, value: Seq<char>, head: Seq<char>) -> Seq<Seq<char>> {
    if text::has_prefix(name + value, head) {
        seq![(name + value).skip(head.len() as int)]
    } else {
        Seq::empty()
    }
}

/// Wherever the lines stand, this is what they add.
spec fn adds(lines: Seq<char>, head: Seq<char>, found: Seq<Seq<char>>) -> bool {
    forall|x: Seq<char>|
        is_ended(x) ==> is_ended(#[trigger] (x + lines)) && readings(x + lines, head) == readings(
            x,
            head,
        ) + found
}

proof fn lemma_assoc(x: Seq<char>, a: Seq<char>, b: Seq<char>)
    ensures
        x + (a + b) == (x + a) + b,
{
    assert(x + (a + b) =~= (x + a) + b);
}

proof fn lemma_assoc3(x: Seq<char>, a: Seq<char>, b: Seq<char>, c: Seq<char>)
    ensures
        x + a + b + c == x + (a + b + c),
{
    assert(x + a + b + c =~= x + (a + b + c));
}

proof fn lemma_adds_both(
    a: Seq<char>,
    b: Seq<char>,
    head: Seq<char>,
    one: Seq<Seq<char>>,
    two: Seq<Seq<char>>,
)
    requires
        adds(a, head, one),
        adds(b, head, two),
    ensures
        adds(a + b, head, one + two),
{
    assert forall|x: Seq<char>| is_ended(x) implies is_ended(#[trigger] (x + (a + b)))
        && readings(x + (a + b), head) == readings(x, head) + (one + two) by {
        lemma_assoc(x, a, b);
        assert(is_ended(x + a));
        assert(is_ended((x + a) + b));
        assert(readings(x, head) + one + two =~= readings(x, head) + (one + two));
    }
}

proof fn lemma_comment_adds(c: Seq<char>, head: Seq<char>)
    requires
        is_comment(c),
        head.len() > 0,
        head[0] == 'l',
    ensures
        adds(c, head, Seq::empty()),
{
    assert forall|x: Seq<char>| is_ended(x) implies is_ended(#[trigger] (x + c)) && readings(
        x + c,
        head,
    ) == readings(x, head) + Seq::<Seq<char>>::empty() by {
        lemma_comment(x, c, head);
        assert(readings(x, head) + Seq::<Seq<char>>::empty() =~= readings(x, head));
    }
}

proof fn lemma_number_adds(name: Seq<char>, value: Seq<char>, head: Seq<char>)
    requires
        !name.contains('\n'),
        !value.contains('\n'),
        head.len() > 0,
    ensures
        adds(name + value + "\n"@, head, line_read(name, value, head)),
{
    let line = name + value + "\n"@;
    assert forall|x: Seq<char>| is_ended(x) implies is_ended(#[trigger] (x + line)) && readings(
        x + line,
        head,
    ) == readings(x, head) + line_read(name, value, head) by {
        lemma_number_line(x, name, value, head);
        lemma_assoc3(x, name, value, "\n"@);
    }
}

proof fn lemma_rate_is_clean(r: Ratio)
    ensures
        !r.fixed_text(3).contains('\n'),
{
    reveal(Ratio::fixed_text);
    let s = r.fixed_text(3);
    crate::json::lemma_quotient_is_balanced(r.double().num(), r.double().den(), 3);
    crate::json::lemma_balanced_is_printable(s);
    if s.contains('\n') {
        let k = choose|k: int| 0 <= k < s.len() && s[k] == '\n';
        assert(crate::json::is_control(s[k]));
    }
}

proof fn lemma_counters_read(m: MetricsView, h: Seq<char>, events: Seq<Seq<char>>)
    requires
        h.len() > 0,
        h[0] == 'l',
        adds(m.event_lines(m.event_counts.len()), h, events),
    ensures
        adds(m.counters_text(), h, line_read("l4scope_packets_total "@,
            text::dec_text(m.packets_total as nat), h) + line_read("l4scope_events_total "@,
            text::dec_text(m.events_total as nat), h) + events),
{
    reveal_strlit("# HELP l4scope_packets_total Packets processed by the engine.\n");
    lemma_comment_adds("# HELP l4scope_packets_total Packets processed by the engine.\n"@, h);
    reveal_strlit("# TYPE l4scope_packets_total counter\n");
    lemma_comment_adds("# TYPE l4scope_packets_total counter\n"@, h);
    reveal_strlit("l4scope_packets_total ");
    lemma_digits_are_clean(m.packets_total as nat);
    lemma_number_adds("l4scope_packets_total "@, text::dec_text(m.packets_total as nat), h);
    reveal_strlit("# HELP l4scope_events_total L4 anomaly events emitted.\n");
    lemma_comment_adds("# HELP l4scope_events_total L4 anomaly events emitted.\n"@, h);
    reveal_strlit("# TYPE l4scope_events_total counter\n");
    lemma_comment_adds("# TYPE l4scope_events_total counter\n"@, h);
    reveal_strlit("l4scope_events_total ");
    lemma_digits_are_clean(m.events_total as nat);
    lemma_number_adds("l4scope_events_total "@, text::dec_text(m.events_total as nat), h);
    reveal_strlit("# HELP l4scope_events Anomaly events by kind and severity.\n");
    lemma_comment_adds("# HELP l4scope_events Anomaly events by kind and severity.\n"@, h);
    reveal_strlit("# TYPE l4scope_events counter\n");
    lemma_comment_adds("# TYPE l4scope_events counter\n"@, h);
    let t0 = "# HELP l4scope_packets_total Packets processed by the engine.\n"@;
    let r0 = Seq::<Seq<char>>::empty();
    let t1 = t0 + "# TYPE l4scope_packets_total counter\n"@;
    let r1 = r0 + Seq::<Seq<char>>::empty();
    lemma_adds_both(t0, "# TYPE l4scope_packets_total counter\n"@, h, r0,
        Seq::<Seq<char>>::empty());
    let t2 = t1 + ("l4scope_packets_total "@ + text::dec_text(m.packets_total as nat) + "\n"@);
    let r2 = r1 + line_read("l4scope_packets_total "@, text::dec_text(m.packets_total as nat), h);
    lemma_adds_both(t1, ("l4scope_packets_total "@ + text::dec_text(m.packets_total as nat)
        + "\n"@), h, r1, line_read("l4scope_packets_total "@,
        text::dec_text(m.packets_total as nat), h));
    lemma_assoc3(t1, "l4scope_packets_total "@, text::dec_text(m.packets_total as nat), "\n"@);
    let t3 = t2 + "# HELP l4scope_events_total L4 anomaly events emitted.\n"@;
    let r3 = r2 + Seq::<Seq<char>>::empty();
    lemma_adds_both(t2, "# HELP l4scope_events_total L4 anomaly events emitted.\n"@, h, r2,
        Seq::<Seq<char>>::empty());
    let t4 = t3 + "# TYPE l4scope_events_total counter\n"@;
    let r4 = r3 + Seq::<Seq<char>>::empty();
    lemma_adds_both(t3, "# TYPE l4scope_events_total counter\n"@, h, r3, Seq::<Seq<char>>::empty());
    let t5 = t4 + ("l4scope_events_total "@ + text::dec_text(m.events_total as nat) + "\n"@);
    let r5 = r4 + line_read("l4scope_events_total "@, text::dec_text(m.events_total as nat), h);
    lemma_adds_both(t4, ("l4scope_events_total "@ + text::dec_text(m.events_total as nat) + "\n"@),
        h, r4, line_read("l4scope_events_total "@, text::dec_text(m.events_total as nat), h));
    lemma_assoc3(t4, "l4scope_events_total "@, text::dec_text(m.events_total as nat), "\n"@);
    let t6 = t5 + "# HELP l4scope_events Anomaly events by kind and severity.\n"@;
    let r6 = r5 + Seq::<Seq<char>>::empty();
    lemma_adds_both(t5, "# HELP l4scope_events Anomaly events by kind and severity.\n"@, h, r5,
        Seq::<Seq<char>>::empty());
    let t7 = t6 + "# TYPE l4scope_events counter\n"@;
    let r7 = r6 + Seq::<Seq<char>>::empty();
    lemma_adds_both(t6, "# TYPE l4scope_events counter\n"@, h, r6, Seq::<Seq<char>>::empty());
    let t8 = t7 + m.event_lines(m.event_counts.len());
    let r8 = r7 + events;
    lemma_adds_both(t7, m.event_lines(m.event_counts.len()), h, r7, events);
    assert(t8 == m.counters_text());
    assert(r8 =~= line_read("l4scope_packets_total "@, text::dec_text(m.packets_total as nat), h)
        + line_read("l4scope_events_total "@, text::dec_text(m.events_total as nat), h) + events);
}

proof fn lemma_pods_read(m: MetricsView, h: Seq<char>, pod_events: Seq<Seq<char>>,
    pod_packets: Seq<Seq<char>>)
    requires
        h.len() > 0,
        h[0] == 'l',
        adds(m.pod_event_lines(m.pod_event_counts.len()), h, pod_events),
        adds(m.pod_packet_lines(m.pod_packets.len()), h, pod_packets),
    ensures
        adds(m.pods_text(), h, pod_events + pod_packets),
{
    reveal_strlit("# HELP l4scope_pod_events Anomaly events by pod, kind and severity.\n");
    lemma_comment_adds("# HELP l4scope_pod_events Anomaly events by pod, kind and severity.\n"@, h);
    reveal_strlit("# TYPE l4scope_pod_events counter\n");
    lemma_comment_adds("# TYPE l4scope_pod_events counter\n"@, h);
    reveal_strlit("# HELP l4scope_pod_packets_total Packets processed per pod.\n");
    lemma_comment_adds("# HELP l4scope_pod_packets_total Packets processed per pod.\n"@, h);
    reveal_strlit("# TYPE l4scope_pod_packets_total counter\n");
    lemma_comment_adds("# TYPE l4scope_pod_packets_total counter\n"@, h);
    let t0 = "# HELP l4scope_pod_events Anomaly events by pod, kind and severity.\n"@;
    let r0 = Seq::<Seq<char>>::empty();
    let t1 = t0 + "# TYPE l4scope_pod_events counter\n"@;
    let r1 = r0 + Seq::<Seq<char>>::empty();
    lemma_adds_both(t0, "# TYPE l4scope_pod_events counter\n"@, h, r0, Seq::<Seq<char>>::empty());
    let t2 = t1 + m.pod_event_lines(m.pod_event_counts.len());
    let r2 = r1 + pod_events;
    lemma_adds_both(t1, m.pod_event_lines(m.pod_event_counts.len()), h, r1, pod_events);
    let t3 = t2 + "# HELP l4scope_pod_packets_total Packets processed per pod.\n"@;
    let r3 = r2 + Seq::<Seq<char>>::empty();
    lemma_adds_both(t2, "# HELP l4scope_pod_packets_total Packets processed per pod.\n"@, h, r2,
        Seq::<Seq<char>>::empty());
    let t4 = t3 + "# TYPE l4scope_pod_packets_total counter\n"@;
    let r4 = r3 + Seq::<Seq<char>>::empty();
    lemma_adds_both(t3, "# TYPE l4scope_pod_packets_total counter\n"@, h, r3,
        Seq::<Seq<char>>::empty());
    let t5 = t4 + m.pod_packet_lines(m.pod_packets.len());
    let r5 = r4 + pod_packets;
    lemma_adds_both(t4, m.pod_packet_lines(m.pod_packets.len()), h, r4, pod_packets);
    assert(t5 == m.pods_text());
    assert(r5 =~= pod_events + pod_packets);
}

proof fn lemma_gauges_read(m: MetricsView, h: Seq<char>)
    requires
        h.len() > 0,
        h[0] == 'l',
    ensures
        adds(m.gauges_text(), h, line_read("l4scope_active_flows "@,
            text::dec_text(m.active_flows as nat), h) + line_read("l4scope_half_open_max "@,
            text::dec_text(m.half_open_max as nat), h) + line_read("l4scope_rst_per_second "@,
            m.rst_per_sec.fixed_text(3), h) + line_read("l4scope_new_flows_per_second "@,
            m.new_flow_per_sec.fixed_text(3), h)),
{
    reveal_strlit("# HELP l4scope_active_flows Flows currently tracked.\n");
    lemma_comment_adds("# HELP l4scope_active_flows Flows currently tracked.\n"@, h);
    reveal_strlit("# TYPE l4scope_active_flows gauge\n");
    lemma_comment_adds("# TYPE l4scope_active_flows gauge\n"@, h);
    reveal_strlit("l4scope_active_flows ");
    lemma_digits_are_clean(m.active_flows as nat);
    lemma_number_adds("l4scope_active_flows "@, text::dec_text(m.active_flows as nat), h);
    reveal_strlit("# HELP l4scope_half_open_max Max concurrent half-open connections to one service.\n");
    lemma_comment_adds("# HELP l4scope_half_open_max Max concurrent half-open connections to one service.\n"@, h);
    reveal_strlit("# TYPE l4scope_half_open_max gauge\n");
    lemma_comment_adds("# TYPE l4scope_half_open_max gauge\n"@, h);
    reveal_strlit("l4scope_half_open_max ");
    lemma_digits_are_clean(m.half_open_max as nat);
    lemma_number_adds("l4scope_half_open_max "@, text::dec_text(m.half_open_max as nat), h);
    reveal_strlit("# HELP l4scope_rst_per_second Host-wide TCP RST rate.\n");
    lemma_comment_adds("# HELP l4scope_rst_per_second Host-wide TCP RST rate.\n"@, h);
    reveal_strlit("# TYPE l4scope_rst_per_second gauge\n");
    lemma_comment_adds("# TYPE l4scope_rst_per_second gauge\n"@, h);
    reveal_strlit("l4scope_rst_per_second ");
    lemma_rate_is_clean(m.rst_per_sec);
    lemma_number_adds("l4scope_rst_per_second "@, m.rst_per_sec.fixed_text(3), h);
    reveal_strlit("# HELP l4scope_new_flows_per_second Host-wide new-flow rate.\n");
    lemma_comment_adds("# HELP l4scope_new_flows_per_second Host-wide new-flow rate.\n"@, h);
    reveal_strlit("# TYPE l4scope_new_flows_per_second gauge\n");
    lemma_comment_adds("# TYPE l4scope_new_flows_per_second gauge\n"@, h);
    reveal_strlit("l4scope_new_flows_per_second ");
    lemma_rate_is_clean(m.new_flow_per_sec);
    lemma_number_adds("l4scope_new_flows_per_second "@, m.new_flow_per_sec.fixed_text(3), h);
    let t0 = "# HELP l4scope_active_flows Flows currently tracked.\n"@;
    let r0 = Seq::<Seq<char>>::empty();
    let t1 = t0 + "# TYPE l4scope_active_flows gauge\n"@;
    let r1 = r0 + Seq::<Seq<char>>::empty();
    lemma_adds_both(t0, "# TYPE l4scope_active_flows gauge\n"@, h, r0, Seq::<Seq<char>>::empty());
    let t2 = t1 + ("l4scope_active_flows "@ + text::dec_text(m.active_flows as nat) + "\n"@);
    let r2 = r1 + line_read("l4scope_active_flows "@, text::dec_text(m.active_flows as nat), h);
    lemma_adds_both(t1, ("l4scope_active_flows "@ + text::dec_text(m.active_flows as nat) + "\n"@),
        h, r1, line_read("l4scope_active_flows "@, text::dec_text(m.active_flows as nat), h));
    lemma_assoc3(t1, "l4scope_active_flows "@, text::dec_text(m.active_flows as nat), "\n"@);
    let t3 = t2
        + "# HELP l4scope_half_open_max Max concurrent half-open connections to one service.\n"@;
    let r3 = r2 + Seq::<Seq<char>>::empty();
    lemma_adds_both(t2,
        "# HELP l4scope_half_open_max Max concurrent half-open connections to one service.\n"@, h,
        r2, Seq::<Seq<char>>::empty());
    let t4 = t3 + "# TYPE l4scope_half_open_max gauge\n"@;
    let r4 = r3 + Seq::<Seq<char>>::empty();
    lemma_adds_both(t3, "# TYPE l4scope_half_open_max gauge\n"@, h, r3, Seq::<Seq<char>>::empty());
    let t5 = t4 + ("l4scope_half_open_max "@ + text::dec_text(m.half_open_max as nat) + "\n"@);
    let r5 = r4 + line_read("l4scope_half_open_max "@, text::dec_text(m.half_open_max as nat), h);
    lemma_adds_both(t4, ("l4scope_half_open_max "@ + text::dec_text(m.half_open_max as nat)
        + "\n"@), h, r4, line_read("l4scope_half_open_max "@,
        text::dec_text(m.half_open_max as nat), h));
    lemma_assoc3(t4, "l4scope_half_open_max "@, text::dec_text(m.half_open_max as nat), "\n"@);
    let t6 = t5 + "# HELP l4scope_rst_per_second Host-wide TCP RST rate.\n"@;
    let r6 = r5 + Seq::<Seq<char>>::empty();
    lemma_adds_both(t5, "# HELP l4scope_rst_per_second Host-wide TCP RST rate.\n"@, h, r5,
        Seq::<Seq<char>>::empty());
    let t7 = t6 + "# TYPE l4scope_rst_per_second gauge\n"@;
    let r7 = r6 + Seq::<Seq<char>>::empty();
    lemma_adds_both(t6, "# TYPE l4scope_rst_per_second gauge\n"@, h, r6, Seq::<Seq<char>>::empty());
    let t8 = t7 + ("l4scope_rst_per_second "@ + m.rst_per_sec.fixed_text(3) + "\n"@);
    let r8 = r7 + line_read("l4scope_rst_per_second "@, m.rst_per_sec.fixed_text(3), h);
    lemma_adds_both(t7, ("l4scope_rst_per_second "@ + m.rst_per_sec.fixed_text(3) + "\n"@), h, r7,
        line_read("l4scope_rst_per_second "@, m.rst_per_sec.fixed_text(3), h));
    lemma_assoc3(t7, "l4scope_rst_per_second "@, m.rst_per_sec.fixed_text(3), "\n"@);
    let t9 = t8 + "# HELP l4scope_new_flows_per_second Host-wide new-flow rate.\n"@;
    let r9 = r8 + Seq::<Seq<char>>::empty();
    lemma_adds_both(t8, "# HELP l4scope_new_flows_per_second Host-wide new-flow rate.\n"@, h, r8,
        Seq::<Seq<char>>::empty());
    let t10 = t9 + "# TYPE l4scope_new_flows_per_second gauge\n"@;
    let r10 = r9 + Seq::<Seq<char>>::empty();
    lemma_adds_both(t9, "# TYPE l4scope_new_flows_per_second gauge\n"@, h, r9,
        Seq::<Seq<char>>::empty());
    let t11 = t10 + ("l4scope_new_flows_per_second "@ + m.new_flow_per_sec.fixed_text(3) + "\n"@);
    let r11 = r10 + line_read("l4scope_new_flows_per_second "@, m.new_flow_per_sec.fixed_text(3),
        h);
    lemma_adds_both(t10, ("l4scope_new_flows_per_second "@ + m.new_flow_per_sec.fixed_text(3)
        + "\n"@), h, r10, line_read("l4scope_new_flows_per_second "@,
        m.new_flow_per_sec.fixed_text(3), h));
    lemma_assoc3(t10, "l4scope_new_flows_per_second "@, m.new_flow_per_sec.fixed_text(3), "\n"@);
    assert(t11 == m.gauges_text());
    assert(r11 =~= line_read("l4scope_active_flows "@, text::dec_text(m.active_flows as nat), h)
        + line_read("l4scope_half_open_max "@, text::dec_text(m.half_open_max as nat), h)
        + line_read("l4scope_rst_per_second "@, m.rst_per_sec.fixed_text(3), h)
        + line_read("l4scope_new_flows_per_second "@, m.new_flow_per_sec.fixed_text(3), h));
}

/// Everything that is read, from the top of the text to its end.
spec fn all_read(
    m: MetricsView,
    h: Seq<char>,
    events: Seq<Seq<char>>,
    pod_events: Seq<Seq<char>>,
    pod_packets: Seq<Seq<char>>,
) -> Seq<Seq<char>> {
    (line_read("l4scope_packets_total "@, text::dec_text(m.packets_total as nat), h)
        + line_read("l4scope_events_total "@, text::dec_text(m.events_total as nat), h) + events)
        + (if m.pod_event_counts.len() > 0 {
        pod_events + pod_packets
    } else {
        Seq::empty()
    }) + (line_read("l4scope_active_flows "@, text::dec_text(m.active_flows as nat), h)
        + line_read("l4scope_half_open_max "@, text::dec_text(m.half_open_max as nat), h)
        + line_read("l4scope_rst_per_second "@, m.rst_per_sec.fixed_text(3), h)
        + line_read("l4scope_new_flows_per_second "@, m.new_flow_per_sec.fixed_text(3), h))
}

proof fn lemma_all_read(
    m: MetricsView,
    h: Seq<char>,
    events: Seq<Seq<char>>,
    pod_events: Seq<Seq<char>>,
    pod_packets: Seq<Seq<char>>,
)
    requires
        h.len() > 0,
        h[0] == 'l',
        adds(m.event_lines(m.event_counts.len()), h, events),
        adds(m.pod_event_lines(m.pod_event_counts.len()), h, pod_events),
        adds(m.pod_packet_lines(m.pod_packets.len()), h, pod_packets),
    ensures
        readings(m.prometheus(), h) == all_read(m, h, events, pod_events, pod_packets),
{
    lemma_counters_read(m, h, events);
    lemma_pods_read(m, h, pod_events, pod_packets);
    lemma_gauges_read(m, h);
    let a = m.counters_text();
    let b = if m.pod_event_counts.len() > 0 {
        m.pods_text()
    } else {
        Seq::empty()
    };
    let ra = line_read("l4scope_packets_total "@, text::dec_text(m.packets_total as nat), h)
        + line_read("l4scope_events_total "@, text::dec_text(m.events_total as nat), h) + events;
    let rb = if m.pod_event_counts.len() > 0 {
        pod_events + pod_packets
    } else {
        Seq::empty()
    };
    let rc = line_read("l4scope_active_flows "@, text::dec_text(m.active_flows as nat), h)
        + line_read("l4scope_half_open_max "@, text::dec_text(m.half_open_max as nat), h)
        + line_read("l4scope_rst_per_second "@, m.rst_per_sec.fixed_text(3), h)
        + line_read("l4scope_new_flows_per_second "@, m.new_flow_per_sec.fixed_text(3), h);
    assert(adds(b, h, rb)) by {
        if m.pod_event_counts.len() == 0 {
            assert forall|x: Seq<char>| is_ended(x) implies is_ended(#[trigger] (x + b))
                && readings(x + b, h) == readings(x, h) + rb by {
                assert(x + b =~= x);
                assert(readings(x, h) + rb =~= readings(x, h));
            }
        }
    }
    lemma_adds_both(a, b, h, ra, rb);
    lemma_adds_both(a + b, m.gauges_text(), h, ra + rb, rc);
    let none = Seq::<char>::empty();
    assert(is_ended(none));
    assert(is_ended(none + m.prometheus()));
    assert(none + m.prometheus() =~= m.prometheus());
    text::lemma_split_whole(none, '\n');
    let one = seq![none];
    assert(one.skip(1) =~= Seq::<Seq<char>>::empty());
    assert(picked(one.skip(1), h) == Seq::<Seq<char>>::empty());
    assert(readings(none, h) == Seq::<Seq<char>>::empty());
    assert(readings(none, h) + (ra + rb + rc) =~= ra + rb + rc);
}

/// Lines of other series are not read.
proof fn lemma_no_event_lines(m: MetricsView, h: Seq<char>, n: nat, i: int)
    requires
        n <= m.event_counts.len(),
        has_clean_labels(m.event_counts, 2),
        h.len() > i >= 0,
        i < "l4scope_events{kind=\""@.len(),
        h[i] != "l4scope_events{kind=\""@[i],
    ensures
        adds(m.event_lines(n), h, Seq::empty()),
    decreases n,
{
    let none = Seq::<Seq<char>>::empty();
    if n == 0 {
        assert forall|x: Seq<char>| is_ended(x) implies is_ended(#[trigger] (x + m.event_lines(n)))
            && readings(x + m.event_lines(n), h) == readings(x, h) + none by {
            assert(x + m.event_lines(n) =~= x);
            assert(readings(x, h) + none =~= readings(x, h));
        }
    } else {
        let k = (n - 1) as nat;
        let e = m.event_counts[n - 1];
        lemma_no_event_lines(m, h, k, i);
        lemma_event_line_is_clean(e.0);
        lemma_digits_are_clean(e.1 as nat);
        let start = event_head(e.0[0], e.0[1]);
        let v = text::dec_text(e.1 as nat);
        lemma_number_adds(start, v, h);
        assert((start + v)[i] == "l4scope_events{kind=\""@[i]);
        lemma_differs(start + v, h, i);
        lemma_adds_both(m.event_lines(k), start + v + "\n"@, h, none, none);
        assert(none + none =~= none);
        lemma_event_line_text(m, n);
    }
}

proof fn lemma_event_lines_add(m: MetricsView, labels: Seq<Seq<char>>)
    requires
        has_clean_labels(m.event_counts, 2),
        series::is_sorted(m.event_counts),
        labels.len() == 2,
        forall|i: int| 0 <= i < 2 ==> is_clean(#[trigger] labels[i]),
    ensures
        adds(
            m.event_lines(m.event_counts.len()),
            event_head(labels[0], labels[1]),
            read_of(m.event_counts, labels),
        ),
{
    let h = event_head(labels[0], labels[1]);
    let n = m.event_counts.len();
    assert forall|x: Seq<char>| is_ended(x) implies is_ended(#[trigger] (x + m.event_lines(n)))
        && readings(x + m.event_lines(n), h) == readings(x, h) + read_of(m.event_counts,
            labels) by {
        lemma_event_lines(m, x, n, labels);
        assert(m.event_counts.take(n as int) =~= m.event_counts);
    }
}

/// Lines of other series are not read.
proof fn lemma_no_pod_event_lines(m: MetricsView, h: Seq<char>, n: nat, i: int)
    requires
        n <= m.pod_event_counts.len(),
        has_clean_labels(m.pod_event_counts, 3),
        h.len() > i >= 0,
        i < "l4scope_pod_events{pod_ip=\""@.len(),
        h[i] != "l4scope_pod_events{pod_ip=\""@[i],
    ensures
        adds(m.pod_event_lines(n), h, Seq::empty()),
    decreases n,
{
    let none = Seq::<Seq<char>>::empty();
    if n == 0 {
        assert forall|x: Seq<char>| is_ended(x) implies is_ended(#[trigger] (x
            + m.pod_event_lines(n)))
            && readings(x + m.pod_event_lines(n), h) == readings(x, h) + none by {
            assert(x + m.pod_event_lines(n) =~= x);
            assert(readings(x, h) + none =~= readings(x, h));
        }
    } else {
        let k = (n - 1) as nat;
        let e = m.pod_event_counts[n - 1];
        lemma_no_pod_event_lines(m, h, k, i);
        lemma_pod_event_line_is_clean(e.0);
        lemma_digits_are_clean(e.1 as nat);
        let start = pod_event_head(e.0[0], e.0[1], e.0[2]);
        let v = text::dec_text(e.1 as nat);
        lemma_number_adds(start, v, h);
        assert((start + v)[i] == "l4scope_pod_events{pod_ip=\""@[i]);
        lemma_differs(start + v, h, i);
        lemma_adds_both(m.pod_event_lines(k), start + v + "\n"@, h, none, none);
        assert(none + none =~= none);
        lemma_pod_event_line_text(m, n);
    }
}

proof fn lemma_pod_event_lines_add(m: MetricsView, labels: Seq<Seq<char>>)
    requires
        has_clean_labels(m.pod_event_counts, 3),
        series::is_sorted(m.pod_event_counts),
        labels.len() == 3,
        forall|i: int| 0 <= i < 3 ==> is_clean(#[trigger] labels[i]),
    ensures
        adds(
            m.pod_event_lines(m.pod_event_counts.len()),
            pod_event_head(labels[0], labels[1], labels[2]),
            read_of(m.pod_event_counts, labels),
        ),
{
    let h = pod_event_head(labels[0], labels[1], labels[2]);
    let n = m.pod_event_counts.len();
    assert forall|x: Seq<char>| is_ended(x) implies is_ended(#[trigger] (x + m.pod_event_lines(n)))
        && readings(x + m.pod_event_lines(n), h) == readings(x, h) + read_of(m.pod_event_counts,
            labels) by {
        lemma_pod_event_lines(m, x, n, labels);
        assert(m.pod_event_counts.take(n as int) =~= m.pod_event_counts);
    }
}

/// Lines of other series are not read.
proof fn lemma_no_pod_packet_lines(m: MetricsView, h: Seq<char>, n: nat, i: int)
    requires
        n <= m.pod_packets.len(),
        has_clean_labels(m.pod_packets, 1),
        h.len() > i >= 0,
        i < "l4scope_pod_packets_total{pod_ip=\""@.len(),
        h[i] != "l4scope_pod_packets_total{pod_ip=\""@[i],
    ensures
        adds(m.pod_packet_lines(n), h, Seq::empty()),
    decreases n,
{
    let none = Seq::<Seq<char>>::empty();
    if n == 0 {
        assert forall|x: Seq<char>| is_ended(x) implies is_ended(#[trigger] (x
            + m.pod_packet_lines(n)))
            && readings(x + m.pod_packet_lines(n), h) == readings(x, h) + none by {
            assert(x + m.pod_packet_lines(n) =~= x);
            assert(readings(x, h) + none =~= readings(x, h));
        }
    } else {
        let k = (n - 1) as nat;
        let e = m.pod_packets[n - 1];
        lemma_no_pod_packet_lines(m, h, k, i);
        lemma_pod_packet_line_is_clean(e.0);
        lemma_digits_are_clean(e.1 as nat);
        let start = pod_packet_head(e.0[0]);
        let v = text::dec_text(e.1 as nat);
        lemma_number_adds(start, v, h);
        assert((start + v)[i] == "l4scope_pod_packets_total{pod_ip=\""@[i]);
        lemma_differs(start + v, h, i);
        lemma_adds_both(m.pod_packet_lines(k), start + v + "\n"@, h, none, none);
        assert(none + none =~= none);
        lemma_pod_packet_line_text(m, n);
    }
}

proof fn lemma_pod_packet_lines_add(m: MetricsView, labels: Seq<Seq<char>>)
    requires
        has_clean_labels(m.pod_packets, 1),
        series::is_sorted(m.pod_packets),
        labels.len() == 1,
        forall|i: int| 0 <= i < 1 ==> is_clean(#[trigger] labels[i]),
    ensures
        adds(
            m.pod_packet_lines(m.pod_packets.len()),
            pod_packet_head(labels[0]),
            read_of(m.pod_packets, labels),
        ),
{
    let h = pod_packet_head(labels[0]);
    let n = m.pod_packets.len();
    assert forall|x: Seq<char>| is_ended(x) implies is_ended(#[trigger] (x + m.pod_packet_lines(n)))
        && readings(x + m.pod_packet_lines(n), h) == readings(x, h) + read_of(m.pod_packets,
            labels) by {
        lemma_pod_packet_lines(m, x, n, labels);
        assert(m.pod_packets.take(n as int) =~= m.pod_packets);
    }
}

proof fn lemma_event_reading(m: MetricsView, labels: Seq<Seq<char>>)
    requires
        m.consistent(),
        is_readable(m),
        labels.len() == 2,
        forall|i: int| 0 <= i < 2 ==> is_clean(#[trigger] labels[i]),
    ensures
        readings(m.prometheus(), event_head(labels[0], labels[1])) == read_of(m.event_counts,
            labels),
{
    reveal_strlit("l4scope_events{kind=\"");
    reveal_strlit("l4scope_packets_total ");
    reveal_strlit("l4scope_events_total ");
    reveal_strlit("l4scope_active_flows ");
    reveal_strlit("l4scope_half_open_max ");
    reveal_strlit("l4scope_rst_per_second ");
    reveal_strlit("l4scope_new_flows_per_second ");
    reveal_strlit("l4scope_pod_events{pod_ip=\"");
    reveal_strlit("l4scope_pod_packets_total{pod_ip=\"");
    let h = event_head(labels[0], labels[1]);
    let none = Seq::<Seq<char>>::empty();
    lemma_differs("l4scope_packets_total "@ + text::dec_text(m.packets_total as nat), h, 8);
    lemma_differs("l4scope_events_total "@ + text::dec_text(m.events_total as nat), h, 14);
    lemma_differs("l4scope_active_flows "@ + text::dec_text(m.active_flows as nat), h, 8);
    lemma_differs("l4scope_half_open_max "@ + text::dec_text(m.half_open_max as nat), h, 8);
    lemma_differs("l4scope_rst_per_second "@ + m.rst_per_sec.fixed_text(3), h, 8);
    lemma_differs("l4scope_new_flows_per_second "@ + m.new_flow_per_sec.fixed_text(3), h, 8);
    lemma_event_lines_add(m, labels);
    lemma_no_pod_event_lines(m, h, m.pod_event_counts.len(), 8);
    lemma_no_pod_packet_lines(m, h, m.pod_packets.len(), 8);
    lemma_all_read(m, h, read_of(m.event_counts, labels), none, none);
    assert(all_read(m, h, read_of(m.event_counts, labels), none, none) =~= read_of(m.event_counts,
        labels));
}

proof fn lemma_pod_event_reading(m: MetricsView, labels: Seq<Seq<char>>)
    requires
        m.consistent(),
        is_readable(m),
        labels.len() == 3,
        forall|i: int| 0 <= i < 3 ==> is_clean(#[trigger] labels[i]),
    ensures
        readings(m.prometheus(), pod_event_head(labels[0], labels[1], labels[2]))
            == (if m.pod_event_counts.len() > 0 {
            read_of(m.pod_event_counts, labels)
        } else {
            Seq::empty()
        }),
{
    reveal_strlit("l4scope_pod_events{pod_ip=\"");
    reveal_strlit("l4scope_packets_total ");
    reveal_strlit("l4scope_events_total ");
    reveal_strlit("l4scope_active_flows ");
    reveal_strlit("l4scope_half_open_max ");
    reveal_strlit("l4scope_rst_per_second ");
    reveal_strlit("l4scope_new_flows_per_second ");
    reveal_strlit("l4scope_events{kind=\"");
    reveal_strlit("l4scope_pod_packets_total{pod_ip=\"");
    let h = pod_event_head(labels[0], labels[1], labels[2]);
    let none = Seq::<Seq<char>>::empty();
    lemma_differs("l4scope_packets_total "@ + text::dec_text(m.packets_total as nat), h, 9);
    lemma_differs("l4scope_events_total "@ + text::dec_text(m.events_total as nat), h, 8);
    lemma_differs("l4scope_active_flows "@ + text::dec_text(m.active_flows as nat), h, 8);
    lemma_differs("l4scope_half_open_max "@ + text::dec_text(m.half_open_max as nat), h, 8);
    lemma_differs("l4scope_rst_per_second "@ + m.rst_per_sec.fixed_text(3), h, 8);
    lemma_differs("l4scope_new_flows_per_second "@ + m.new_flow_per_sec.fixed_text(3), h, 8);
    lemma_no_event_lines(m, h, m.event_counts.len(), 8);
    lemma_pod_event_lines_add(m, labels);
    lemma_no_pod_packet_lines(m, h, m.pod_packets.len(), 12);
    lemma_all_read(m, h, none, read_of(m.pod_event_counts, labels), none);
    assert(all_read(m, h, none, read_of(m.pod_event_counts, labels), none)
        =~= (if m.pod_event_counts.len() > 0 {
        read_of(m.pod_event_counts, labels)
    } else {
        Seq::empty()
    }));
}

proof fn lemma_pod_packet_reading(m: MetricsView, labels: Seq<Seq<char>>)
    requires
        m.consistent(),
        is_readable(m),
        labels.len() == 1,
        forall|i: int| 0 <= i < 1 ==> is_clean(#[trigger] labels[i]),
    ensures
        readings(m.prometheus(), pod_packet_head(labels[0])) == (if m.pod_event_counts.len() > 0 {
            read_of(m.pod_packets, labels)
        } else {
            Seq::empty()
        }),
{
    reveal_strlit("l4scope_pod_packets_total{pod_ip=\"");
    reveal_strlit("l4scope_packets_total ");
    reveal_strlit("l4scope_events_total ");
    reveal_strlit("l4scope_active_flows ");
    reveal_strlit("l4scope_half_open_max ");
    reveal_strlit("l4scope_rst_per_second ");
    reveal_strlit("l4scope_new_flows_per_second ");
    reveal_strlit("l4scope_events{kind=\"");
    reveal_strlit("l4scope_pod_events{pod_ip=\"");
    let h = pod_packet_head(labels[0]);
    let none = Seq::<Seq<char>>::empty();
    lemma_differs("l4scope_packets_total "@ + text::dec_text(m.packets_total as nat), h, 9);
    lemma_differs("l4scope_events_total "@ + text::dec_text(m.events_total as nat), h, 8);
    lemma_differs("l4scope_active_flows "@ + text::dec_text(m.active_flows as nat), h, 8);
    lemma_differs("l4scope_half_open_max "@ + text::dec_text(m.half_open_max as nat), h, 8);
    lemma_differs("l4scope_rst_per_second "@ + m.rst_per_sec.fixed_text(3), h, 8);
    lemma_differs("l4scope_new_flows_per_second "@ + m.new_flow_per_sec.fixed_text(3), h, 8);
    lemma_no_event_lines(m, h, m.event_counts.len(), 8);
    lemma_no_pod_event_lines(m, h, m.pod_event_counts.len(), 12);
    lemma_pod_packet_lines_add(m, labels);
    lemma_all_read(m, h, none, none, read_of(m.pod_packets, labels));
    assert(all_read(m, h, none, none, read_of(m.pod_packets, labels))
        =~= (if m.pod_event_counts.len() > 0 {
        read_of(m.pod_packets, labels)
    } else {
        Seq::empty()
    }));
}

proof fn lemma_reading_packets_total(m: MetricsView)
    requires
        is_readable(m),
    ensures
        readings(m.prometheus(), "l4scope_packets_total "@)
            == seq![text::dec_text(m.packets_total as nat)],
{
    reveal_strlit("l4scope_packets_total ");
    reveal_strlit("l4scope_events_total ");
    reveal_strlit("l4scope_active_flows ");
    reveal_strlit("l4scope_half_open_max ");
    reveal_strlit("l4scope_rst_per_second ");
    reveal_strlit("l4scope_new_flows_per_second ");
    reveal_strlit("l4scope_events{kind=\"");
    reveal_strlit("l4scope_pod_events{pod_ip=\"");
    reveal_strlit("l4scope_pod_packets_total{pod_ip=\"");
    let h = "l4scope_packets_total "@;
    let none = Seq::<Seq<char>>::empty();
    lemma_differs("l4scope_events_total "@ + text::dec_text(m.events_total as nat), h, 8);
    lemma_differs("l4scope_active_flows "@ + text::dec_text(m.active_flows as nat), h, 8);
    lemma_differs("l4scope_half_open_max "@ + text::dec_text(m.half_open_max as nat), h, 8);
    lemma_differs("l4scope_rst_per_second "@ + m.rst_per_sec.fixed_text(3), h, 8);
    lemma_differs("l4scope_new_flows_per_second "@ + m.new_flow_per_sec.fixed_text(3), h, 8);
    lemma_no_event_lines(m, h, m.event_counts.len(), 8);
    lemma_no_pod_event_lines(m, h, m.pod_event_counts.len(), 9);
    lemma_no_pod_packet_lines(m, h, m.pod_packets.len(), 9);
    lemma_strip(h, text::dec_text(m.packets_total as nat), Seq::empty());
    assert(h + Seq::<char>::empty() =~= h);
    assert(text::has_prefix(h + text::dec_text(m.packets_total as nat), h)) by {
        assert((h + text::dec_text(m.packets_total as nat)).take(h.len() as int) =~= h);
    }
    assert((h + text::dec_text(m.packets_total as nat)).skip(h.len() as int)
        =~= text::dec_text(m.packets_total as nat));
    lemma_all_read(m, h, none, none, none);
    assert(all_read(m, h, none, none, none) =~= seq![text::dec_text(m.packets_total as nat)]);
}

proof fn lemma_reading_events_total(m: MetricsView)
    requires
        is_readable(m),
    ensures
        readings(m.prometheus(), "l4scope_events_total "@)
            == seq![text::dec_text(m.events_total as nat)],
{
    reveal_strlit("l4scope_events_total ");
    reveal_strlit("l4scope_packets_total ");
    reveal_strlit("l4scope_active_flows ");
    reveal_strlit("l4scope_half_open_max ");
    reveal_strlit("l4scope_rst_per_second ");
    reveal_strlit("l4scope_new_flows_per_second ");
    reveal_strlit("l4scope_events{kind=\"");
    reveal_strlit("l4scope_pod_events{pod_ip=\"");
    reveal_strlit("l4scope_pod_packets_total{pod_ip=\"");
    let h = "l4scope_events_total "@;
    let none = Seq::<Seq<char>>::empty();
    lemma_differs("l4scope_packets_total "@ + text::dec_text(m.packets_total as nat), h, 8);
    lemma_differs("l4scope_active_flows "@ + text::dec_text(m.active_flows as nat), h, 8);
    lemma_differs("l4scope_half_open_max "@ + text::dec_text(m.half_open_max as nat), h, 8);
    lemma_differs("l4scope_rst_per_second "@ + m.rst_per_sec.fixed_text(3), h, 8);
    lemma_differs("l4scope_new_flows_per_second "@ + m.new_flow_per_sec.fixed_text(3), h, 8);
    lemma_no_event_lines(m, h, m.event_counts.len(), 14);
    lemma_no_pod_event_lines(m, h, m.pod_event_counts.len(), 8);
    lemma_no_pod_packet_lines(m, h, m.pod_packets.len(), 8);
    lemma_strip(h, text::dec_text(m.events_total as nat), Seq::empty());
    assert(h + Seq::<char>::empty() =~= h);
    assert(text::has_prefix(h + text::dec_text(m.events_total as nat), h)) by {
        assert((h + text::dec_text(m.events_total as nat)).take(h.len() as int) =~= h);
    }
    assert((h + text::dec_text(m.events_total as nat)).skip(h.len() as int)
        =~= text::dec_text(m.events_total as nat));
    lemma_all_read(m, h, none, none, none);
    assert(all_read(m, h, none, none, none) =~= seq![text::dec_text(m.events_total as nat)]);
}

proof fn lemma_reading_active_flows(m: MetricsView)
    requires
        is_readable(m),
    ensures
        readings(m.prometheus(), "l4scope_active_flows "@)
            == seq![text::dec_text(m.active_flows as nat)],
{
    reveal_strlit("l4scope_active_flows ");
    reveal_strlit("l4scope_packets_total ");
    reveal_strlit("l4scope_events_total ");
    reveal_strlit("l4scope_half_open_max ");
    reveal_strlit("l4scope_rst_per_second ");
    reveal_strlit("l4scope_new_flows_per_second ");
    reveal_strlit("l4scope_events{kind=\"");
    reveal_strlit("l4scope_pod_events{pod_ip=\"");
    reveal_strlit("l4scope_pod_packets_total{pod_ip=\"");
    let h = "l4scope_active_flows "@;
    let none = Seq::<Seq<char>>::empty();
    lemma_differs("l4scope_packets_total "@ + text::dec_text(m.packets_total as nat), h, 8);
    lemma_differs("l4scope_events_total "@ + text::dec_text(m.events_total as nat), h, 8);
    lemma_differs("l4scope_half_open_max "@ + text::dec_text(m.half_open_max as nat), h, 8);
    lemma_differs("l4scope_rst_per_second "@ + m.rst_per_sec.fixed_text(3), h, 8);
    lemma_differs("l4scope_new_flows_per_second "@ + m.new_flow_per_sec.fixed_text(3), h, 8);
    lemma_no_event_lines(m, h, m.event_counts.len(), 8);
    lemma_no_pod_event_lines(m, h, m.pod_event_counts.len(), 8);
    lemma_no_pod_packet_lines(m, h, m.pod_packets.len(), 8);
    lemma_strip(h, text::dec_text(m.active_flows as nat), Seq::empty());
    assert(h + Seq::<char>::empty() =~= h);
    assert(text::has_prefix(h + text::dec_text(m.active_flows as nat), h)) by {
        assert((h + text::dec_text(m.active_flows as nat)).take(h.len() as int) =~= h);
    }
    assert((h + text::dec_text(m.active_flows as nat)).skip(h.len() as int)
        =~= text::dec_text(m.active_flows as nat));
    lemma_all_read(m, h, none, none, none);
    assert(all_read(m, h, none, none, none) =~= seq![text::dec_text(m.active_flows as nat)]);
}

proof fn lemma_reading_half_open_max(m: MetricsView)
    requires
        is_readable(m),
    ensures
        readings(m.prometheus(), "l4scope_half_open_max "@)
            == seq![text::dec_text(m.half_open_max as nat)],
{
    reveal_strlit("l4scope_half_open_max ");
    reveal_strlit("l4scope_packets_total ");
    reveal_strlit("l4scope_events_total ");
    reveal_strlit("l4scope_active_flows ");
    reveal_strlit("l4scope_rst_per_second ");
    reveal_strlit("l4scope_new_flows_per_second ");
    reveal_strlit("l4scope_events{kind=\"");
    reveal_strlit("l4scope_pod_events{pod_ip=\"");
    reveal_strlit("l4scope_pod_packets_total{pod_ip=\"");
    let h = "l4scope_half_open_max "@;
    let none = Seq::<Seq<char>>::empty();
    lemma_differs("l4scope_packets_total "@ + text::dec_text(m.packets_total as nat), h, 8);
    lemma_differs("l4scope_events_total "@ + text::dec_text(m.events_total as nat), h, 8);
    lemma_differs("l4scope_active_flows "@ + text::dec_text(m.active_flows as nat), h, 8);
    lemma_differs("l4scope_rst_per_second "@ + m.rst_per_sec.fixed_text(3), h, 8);
    lemma_differs("l4scope_new_flows_per_second "@ + m.new_flow_per_sec.fixed_text(3), h, 8);
    lemma_no_event_lines(m, h, m.event_counts.len(), 8);
    lemma_no_pod_event_lines(m, h, m.pod_event_counts.len(), 8);
    lemma_no_pod_packet_lines(m, h, m.pod_packets.len(), 8);
    lemma_strip(h, text::dec_text(m.half_open_max as nat), Seq::empty());
    assert(h + Seq::<char>::empty() =~= h);
    assert(text::has_prefix(h + text::dec_text(m.half_open_max as nat), h)) by {
        assert((h + text::dec_text(m.half_open_max as nat)).take(h.len() as int) =~= h);
    }
    assert((h + text::dec_text(m.half_open_max as nat)).skip(h.len() as int)
        =~= text::dec_text(m.half_open_max as nat));
    lemma_all_read(m, h, none, none, none);
    assert(all_read(m, h, none, none, none) =~= seq![text::dec_text(m.half_open_max as nat)]);
}

proof fn lemma_reading_rst_per_second(m: MetricsView)
    requires
        is_readable(m),
    ensures
        readings(m.prometheus(), "l4scope_rst_per_second "@) == seq![m.rst_per_sec.fixed_text(3)],
{
    reveal_strlit("l4scope_rst_per_second ");
    reveal_strlit("l4scope_packets_total ");
    reveal_strlit("l4scope_events_total ");
    reveal_strlit("l4scope_active_flows ");
    reveal_strlit("l4scope_half_open_max ");
    reveal_strlit("l4scope_new_flows_per_second ");
    reveal_strlit("l4scope_events{kind=\"");
    reveal_strlit("l4scope_pod_events{pod_ip=\"");
    reveal_strlit("l4scope_pod_packets_total{pod_ip=\"");
    let h = "l4scope_rst_per_second "@;
    let none = Seq::<Seq<char>>::empty();
    lemma_differs("l4scope_packets_total "@ + text::dec_text(m.packets_total as nat), h, 8);
    lemma_differs("l4scope_events_total "@ + text::dec_text(m.events_total as nat), h, 8);
    lemma_differs("l4scope_active_flows "@ + text::dec_text(m.active_flows as nat), h, 8);
    lemma_differs("l4scope_half_open_max "@ + text::dec_text(m.half_open_max as nat), h, 8);
    lemma_differs("l4scope_new_flows_per_second "@ + m.new_flow_per_sec.fixed_text(3), h, 8);
    lemma_no_event_lines(m, h, m.event_counts.len(), 8);
    lemma_no_pod_event_lines(m, h, m.pod_event_counts.len(), 8);
    lemma_no_pod_packet_lines(m, h, m.pod_packets.len(), 8);
    lemma_strip(h, m.rst_per_sec.fixed_text(3), Seq::empty());
    assert(h + Seq::<char>::empty() =~= h);
    assert(text::has_prefix(h + m.rst_per_sec.fixed_text(3), h)) by {
        assert((h + m.rst_per_sec.fixed_text(3)).take(h.len() as int) =~= h);
    }
    assert((h + m.rst_per_sec.fixed_text(3)).skip(h.len() as int) =~= m.rst_per_sec.fixed_text(3));
    lemma_all_read(m, h, none, none, none);
    assert(all_read(m, h, none, none, none) =~= seq![m.rst_per_sec.fixed_text(3)]);
}

proof fn lemma_reading_new_flows_per_second(m: MetricsView)
    requires
        is_readable(m),
    ensures
        readings(m.prometheus(), "l4scope_new_flows_per_second "@)
            == seq![m.new_flow_per_sec.fixed_text(3)],
{
    reveal_strlit("l4scope_new_flows_per_second ");
    reveal_strlit("l4scope_packets_total ");
    reveal_strlit("l4scope_events_total ");
    reveal_strlit("l4scope_active_flows ");
    reveal_strlit("l4scope_half_open_max ");
    reveal_strlit("l4scope_rst_per_second ");
    reveal_strlit("l4scope_events{kind=\"");
    reveal_strlit("l4scope_pod_events{pod_ip=\"");
    reveal_strlit("l4scope_pod_packets_total{pod_ip=\"");
    let h = "l4scope_new_flows_per_second "@;
    let none = Seq::<Seq<char>>::empty();
    lemma_differs("l4scope_packets_total "@ + text::dec_text(m.packets_total as nat), h, 8);
    lemma_differs("l4scope_events_total "@ + text::dec_text(m.events_total as nat), h, 8);
    lemma_differs("l4scope_active_flows "@ + text::dec_text(m.active_flows as nat), h, 8);
    lemma_differs("l4scope_half_open_max "@ + text::dec_text(m.half_open_max as nat), h, 8);
    lemma_differs("l4scope_rst_per_second "@ + m.rst_per_sec.fixed_text(3), h, 8);
    lemma_no_event_lines(m, h, m.event_counts.len(), 8);
    lemma_no_pod_event_lines(m, h, m.pod_event_counts.len(), 8);
    lemma_no_pod_packet_lines(m, h, m.pod_packets.len(), 8);
    lemma_strip(h, m.new_flow_per_sec.fixed_text(3), Seq::empty());
    assert(h + Seq::<char>::empty() =~= h);
    assert(text::has_prefix(h + m.new_flow_per_sec.fixed_text(3), h)) by {
        assert((h + m.new_flow_per_sec.fixed_text(3)).take(h.len() as int) =~= h);
    }
    assert((h + m.new_flow_per_sec.fixed_text(3)).skip(h.len() as int)
        =~= m.new_flow_per_sec.fixed_text(3));
    lemma_all_read(m, h, none, none, none);
    assert(all_read(m, h, none, none, none) =~= seq![m.new_flow_per_sec.fixed_text(3)]);
}

proof fn lemma_read_of_entry(s: SeriesView, labels: Seq<Seq<char>>, i: int)
    requires
        series::is_sorted(s),
        0 <= i < s.len(),
        s[i].0 == labels,
    ensures
        read_of(s, labels) == seq![text::dec_text(s[i].1 as nat)],
    decreases s.len(),
{
    let t = s.drop_last();
    lemma_sorted_prefix(s);
    if i == s.len() - 1 {
        lemma_read_of_none(t, labels, s);
        assert(read_of(s, labels) =~= seq![text::dec_text(s[i].1 as nat)]);
    } else {
        assert(t[i] == s[i]);
        lemma_read_of_entry(t, labels, i);
        assert(series::labels_before(s[i].0, s[s.len() - 1].0));
        series::lemma_labels_irreflexive(labels);
    }
}

proof fn lemma_sorted_prefix(s: SeriesView)
    requires
        series::is_sorted(s),
        s.len() > 0,
    ensures
        series::is_sorted(s.drop_last()),
{
    let t = s.drop_last();
    assert forall|i: int, j: int|
        #![trigger t[i], t[j]]
        0 <= i < j < t.len() implies series::labels_before(t[i].0, t[j].0) by {
        assert(t[i] == s[i] && t[j] == s[j]);
    }
}

proof fn lemma_read_of_none(t: SeriesView, labels: Seq<Seq<char>>, s: SeriesView)
    requires
        series::is_sorted(s),
        s.len() > 0,
        s[s.len() - 1].0 == labels,
        t.len() < s.len(),
        t == s.take(t.len() as int),
    ensures
        read_of(t, labels) == Seq::<Seq<char>>::empty(),
    decreases t.len(),
{
    if t.len() > 0 {
        let u = t.drop_last();
        assert(u =~= s.take(u.len() as int));
        lemma_read_of_none(u, labels, s);
        assert(t.last() == s[t.len() - 1]);
        assert(series::labels_before(s[t.len() - 1].0, s[s.len() - 1].0));
        series::lemma_labels_irreflexive(labels);
    }
}

proof fn lemma_read_of_absent(s: SeriesView, labels: Seq<Seq<char>>)
    requires
        forall|i: int| 0 <= i < s.len() ==> (#[trigger] s[i]).0 != labels,
    ensures
        read_of(s, labels) == Seq::<Seq<char>>::empty(),
    decreases s.len(),
{
    if s.len() > 0 {
        let t = s.drop_last();
        assert forall|i: int| 0 <= i < t.len() implies (#[trigger] t[i]).0 != labels by {
            assert(t[i] == s[i]);
        }
        lemma_read_of_absent(t, labels);
        assert(s[s.len() - 1].0 != labels);
    }
}

// ---------------------------------------------------------------------------
// What is read
// ---------------------------------------------------------------------------

/// The totals and gauges stand in the text once each, and their lines read back as the
/// numbers recorded; the two rates are written with three decimals.
pub proof fn law_totals_read_back(m: MetricsView)
    requires
        is_readable(m),
    ensures
        reads(m.prometheus(), "l4scope_packets_total "@, m.packets_total as nat),
        reads(m.prometheus(), "l4scope_events_total "@, m.events_total as nat),
        reads(m.prometheus(), "l4scope_active_flows "@, m.active_flows as nat),
        reads(m.prometheus(), "l4scope_half_open_max "@, m.half_open_max as nat),
        readings(m.prometheus(), "l4scope_rst_per_second "@) == seq![m.rst_per_sec.fixed_text(3)],
        readings(m.prometheus(), "l4scope_new_flows_per_second "@)
            == seq![m.new_flow_per_sec.fixed_text(3)],
{
    lemma_reading_packets_total(m);
    lemma_reading_events_total(m);
    lemma_reading_active_flows(m);
    lemma_reading_half_open_max(m);
    lemma_reading_rst_per_second(m);
    lemma_reading_new_flows_per_second(m);
    text::lemma_dec_text_value(m.packets_total as nat);
    text::lemma_dec_text_value(m.events_total as nat);
    text::lemma_dec_text_value(m.active_flows as nat);
    text::lemma_dec_text_value(m.half_open_max as nat);
}

/// Every count by kind and severity stands on exactly one line under its labels, and reads
/// back as the count.
pub proof fn law_event_lines_read_back(m: MetricsView, i: int)
    requires
        m.consistent(),
        is_readable(m),
        0 <= i < m.event_counts.len(),
    ensures
        reads(
            m.prometheus(),
            event_head(m.event_counts[i].0[0], m.event_counts[i].0[1]),
            m.event_counts[i].1 as nat,
        ),
{
    let labels = m.event_counts[i].0;
    lemma_event_reading(m, labels);
    lemma_read_of_entry(m.event_counts, labels, i);
    text::lemma_dec_text_value(m.event_counts[i].1 as nat);
}

/// Every count by pod, kind and severity stands on exactly one line under its labels, and
/// reads back as the count.
pub proof fn law_pod_event_lines_read_back(m: MetricsView, i: int)
    requires
        m.consistent(),
        is_readable(m),
        0 <= i < m.pod_event_counts.len(),
    ensures
        reads(
            m.prometheus(),
            pod_event_head(m.pod_event_counts[i].0[0], m.pod_event_counts[i].0[1],
                m.pod_event_counts[i].0[2]),
            m.pod_event_counts[i].1 as nat,
        ),
{
    let labels = m.pod_event_counts[i].0;
    lemma_pod_event_reading(m, labels);
    lemma_read_of_entry(m.pod_event_counts, labels, i);
    text::lemma_dec_text_value(m.pod_event_counts[i].1 as nat);
}

/// Where there are pod-level events, every pod's packets stand on exactly one line under the
/// pod's address, and read back as their count.
pub proof fn law_pod_packet_lines_read_back(m: MetricsView, i: int)
    requires
        m.consistent(),
        is_readable(m),
        0 <= i < m.pod_packets.len(),
        m.pod_event_counts.len() > 0,
    ensures
        reads(
            m.prometheus(),
            pod_packet_head(m.pod_packets[i].0[0]),
            m.pod_packets[i].1 as nat,
        ),
{
    let labels = m.pod_packets[i].0;
    lemma_pod_packet_reading(m, labels);
    lemma_read_of_entry(m.pod_packets, labels, i);
    text::lemma_dec_text_value(m.pod_packets[i].1 as nat);
}

/// Labels that were never counted stand on no line, and without pod-level events there is
/// no pod-level line.
pub proof fn law_nothing_else_is_read(m: MetricsView, pod_ip: Seq<char>, kind: Seq<char>,
    severity: Seq<char>)
    requires
        m.consistent(),
        is_readable(m),
        is_clean(pod_ip),
        is_clean(kind),
        is_clean(severity),
    ensures
        (forall|i: int|
            0 <= i < m.event_counts.len() ==> (#[trigger] m.event_counts[i]).0 != seq![
                kind,
                severity,
            ]) ==> readings(m.prometheus(), event_head(kind, severity)).len() == 0,
        (forall|i: int|
            0 <= i < m.pod_event_counts.len() ==> (#[trigger] m.pod_event_counts[i]).0 != seq![
                pod_ip,
                kind,
                severity,
            ]) ==> readings(m.prometheus(), pod_event_head(pod_ip, kind, severity)).len() == 0,
        (m.pod_event_counts.len() == 0 || forall|i: int|
            0 <= i < m.pod_packets.len() ==> (#[trigger] m.pod_packets[i]).0 != seq![pod_ip])
            ==> readings(m.prometheus(), pod_packet_head(pod_ip)).len() == 0,
{
    lemma_event_reading(m, seq![kind, severity]);
    lemma_pod_event_reading(m, seq![pod_ip, kind, severity]);
    lemma_pod_packet_reading(m, seq![pod_ip]);
    if forall|i: int|
        0 <= i < m.event_counts.len() ==> (#[trigger] m.event_counts[i]).0 != seq![kind, severity] {
        lemma_read_of_absent(m.event_counts, seq![kind, severity]);
    }
    if forall|i: int|
        0 <= i < m.pod_event_counts.len() ==> (#[trigger] m.pod_event_counts[i]).0 != seq![
            pod_ip,
            kind,
            severity,
        ] {
        lemma_read_of_absent(m.pod_event_counts, seq![pod_ip, kind, severity]);
    }
    if forall|i: int|
        0 <= i < m.pod_packets.len() ==> (#[trigger] m.pod_packets[i]).0 != seq![pod_ip] {
        lemma_read_of_absent(m.pod_packets, seq![pod_ip]);
    }
}

/// The number on the line that starts with `head`; zero where there is no such line.
pub open spec fn number_on(t: Seq<char>, head: Seq<char>) -> nat {
    let r = readings(t, head);
    if r.len() == 0 {
        0
    } else {
        text::dec_value(r[0])
    }
}

proof fn lemma_number_read(s: SeriesView, labels: Seq<Seq<char>>)
    requires
        series::is_sorted(s),
    ensures
        ({
            let r = read_of(s, labels);
            (if r.len() == 0 {
                0
            } else {
                text::dec_value(r[0])
            }) == series::count_of(s, labels)
        }),
{
    if exists|i: int| 0 <= i < s.len() && (#[trigger] s[i]).0 == labels {
        let i = choose|i: int| 0 <= i < s.len() && (#[trigger] s[i]).0 == labels;
        lemma_read_of_entry(s, labels, i);
        text::lemma_dec_text_value(s[i].1 as nat);
        lemma_count_at(s, labels, i);
    } else {
        lemma_read_of_absent(s, labels);
        lemma_count_absent(s, labels);
    }
}

proof fn lemma_count_at(s: SeriesView, labels: Seq<Seq<char>>, i: int)
    requires
        series::is_sorted(s),
        0 <= i < s.len(),
        s[i].0 == labels,
    ensures
        series::count_of(s, labels) == s[i].1,
    decreases s.len(),
{
    if i > 0 {
        assert(series::labels_before(s[0].0, s[i].0));
        series::lemma_labels_irreflexive(labels);
        let t = s.skip(1);
        assert forall|a: int, b: int|
            #![trigger t[a], t[b]]
            0 <= a < b < t.len() implies series::labels_before(t[a].0, t[b].0) by {
            assert(t[a] == s[a + 1] && t[b] == s[b + 1]);
        }
        assert(t[i - 1] == s[i]);
        lemma_count_at(t, labels, i - 1);
    }
}

proof fn lemma_count_absent(s: SeriesView, labels: Seq<Seq<char>>)
    requires
        forall|i: int| 0 <= i < s.len() ==> (#[trigger] s[i]).0 != labels,
    ensures
        series::count_of(s, labels) == 0,
    decreases s.len(),
{
    if s.len() > 0 {
        let t = s.skip(1);
        assert forall|i: int| 0 <= i < t.len() implies (#[trigger] t[i]).0 != labels by {
            assert(t[i] == s[i + 1]);
        }
        lemma_count_absent(t, labels);
        assert(s[0].0 != labels);
    }
}

/// One more event of a pod raises the numbers on the lines of its kind and severity, with
/// and without the pod, by one, and the total; the numbers on all other lines of events
/// stay.
pub proof fn law_one_more_event_is_one_more_on_its_lines(
    m: MetricsView,
    pod_ip: Seq<char>,
    kind: Seq<char>,
    severity: Seq<char>,
    other_ip: Seq<char>,
    other_kind: Seq<char>,
    other_severity: Seq<char>,
)
    requires
        m.consistent(),
        m.events_total < u64::MAX,
        is_readable(m),
        is_readable(m.with_event(kind, severity, Some(pod_ip))),
        is_clean(other_ip),
        is_clean(other_kind),
        is_clean(other_severity),
    ensures
        ({
            let before = m.prometheus();
            let after = m.with_event(kind, severity, Some(pod_ip)).prometheus();
            let here = kind == other_kind && severity == other_severity;
            &&& number_on(after, event_head(other_kind, other_severity)) == number_on(
                before,
                event_head(other_kind, other_severity),
            ) + (if here {
                1nat
            } else {
                0nat
            })
            &&& number_on(after, pod_event_head(other_ip, other_kind, other_severity))
                == number_on(before, pod_event_head(other_ip, other_kind, other_severity))
                    + (if here
                && pod_ip == other_ip {
                1nat
            } else {
                0nat
            })
            &&& number_on(after, "l4scope_events_total "@) == number_on(
                before,
                "l4scope_events_total "@,
            ) + 1
        }),
{
    let a = m.with_event(kind, severity, Some(pod_ip));
    let l2 = seq![other_kind, other_severity];
    let l3 = seq![other_ip, other_kind, other_severity];
    assert(a.consistent()) by {
        series::law_counting_keeps_order(m.event_counts, seq![kind, severity]);
        series::law_counting_adds_one(m.event_counts, seq![kind, severity], l2);
        series::law_counting_keeps_order(m.pod_event_counts, seq![pod_ip, kind, severity]);
        series::law_counting_adds_one(m.pod_event_counts, seq![pod_ip, kind, severity], l3);
    }
    lemma_event_reading(m, l2);
    lemma_event_reading(a, l2);
    lemma_pod_event_reading(m, l3);
    lemma_pod_event_reading(a, l3);
    lemma_number_read(m.event_counts, l2);
    lemma_number_read(a.event_counts, l2);
    lemma_number_read(m.pod_event_counts, l3);
    lemma_number_read(a.pod_event_counts, l3);
    series::law_counting_adds_one(m.event_counts, seq![kind, severity], l2);
    series::law_counting_adds_one(m.pod_event_counts, seq![pod_ip, kind, severity], l3);
    if l2 == seq![kind, severity] {
        assert(l2[0] == kind && l2[1] == severity);
    }
    if l3 == seq![pod_ip, kind, severity] {
        assert(l3[0] == pod_ip && l3[1] == kind && l3[2] == severity);
    }
    law_totals_read_back(m);
    law_totals_read_back(a);
}

/// One more packet of a pod raises the number on its line by one, and the total; other
/// pods' numbers stay.
pub proof fn law_one_more_packet_is_one_more_on_its_line(
    m: MetricsView,
    pod_ip: Seq<char>,
    other_ip: Seq<char>,
)
    requires
        m.consistent(),
        m.packets_total < u64::MAX,
        m.pod_event_counts.len() > 0,
        is_readable(m),
        is_readable(m.with_packet(Some(pod_ip))),
        is_clean(other_ip),
    ensures
        ({
            let before = m.prometheus();
            let after = m.with_packet(Some(pod_ip)).prometheus();
            &&& number_on(after, pod_packet_head(other_ip)) == number_on(
                before,
                pod_packet_head(other_ip),
            ) + (if pod_ip == other_ip {
                1nat
            } else {
                0nat
            })
            &&& number_on(after, "l4scope_packets_total "@) == number_on(
                before,
                "l4scope_packets_total "@,
            ) + 1
        }),
{
    let a = m.with_packet(Some(pod_ip));
    let l = seq![other_ip];
    assert(a.consistent()) by {
        series::law_counting_keeps_order(m.pod_packets, seq![pod_ip]);
        series::law_counting_adds_one(m.pod_packets, seq![pod_ip], seq![pod_ip]);
    }
    lemma_pod_packet_reading(m, l);
    lemma_pod_packet_reading(a, l);
    lemma_number_read(m.pod_packets, l);
    lemma_number_read(a.pod_packets, l);
    series::law_counting_adds_one(m.pod_packets, seq![pod_ip], l);
    if l == seq![pod_ip] {
        assert(l[0] == pod_ip);
    }
    law_totals_read_back(m);
    law_totals_read_back(a);
}

} // verus!
