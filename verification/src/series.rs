//! Counters kept under text labels, in the order of the labels.

use vstd::prelude::*;

use crate::text;

verus! {

/// `a` comes before `b`, by the code points of their characters.
pub open spec fn text_before(a: Seq<char>, b: Seq<char>) -> bool
    decreases a.len(),
{
    if b.len() == 0 {
        false
    } else if a.len() == 0 {
        true
    } else if a[0] == b[0] {
        text_before(a.skip(1), b.skip(1))
    } else {
        a[0] < b[0]
    }
}

/// `a` comes before `b`, by their labels in turn.
pub open spec fn labels_before(a: Seq<Seq<char>>, b: Seq<Seq<char>>) -> bool
    decreases a.len(),
{
    if b.len() == 0 {
        false
    } else if a.len() == 0 {
        true
    } else if a[0] == b[0] {
        labels_before(a.skip(1), b.skip(1))
    } else {
        text_before(a[0], b[0])
    }
}

/// Labels with a count, one series after another.
pub type SeriesView = Seq<(Seq<Seq<char>>, u64)>;

/// The series are in the order of their labels, and no labels occur twice.
pub open spec fn is_sorted(s: SeriesView) -> bool {
    forall|i: int, j: int|
        #![trigger s[i], s[j]]
        0 <= i < j < s.len() ==> labels_before(s[i].0, s[j].0)
}

/// The sum of all counts.
pub open spec fn total(s: SeriesView) -> nat
    decreases s.len(),
{
    if s.len() == 0 {
        0
    } else {
        s[0].1 as nat + total(s.skip(1))
    }
}

/// The count under the labels; zero where there is none.
pub open spec fn count_of(s: SeriesView, labels: Seq<Seq<char>>) -> nat
    decreases s.len(),
{
    if s.len() == 0 {
        0
    } else if s[0].0 == labels {
        s[0].1 as nat
    } else {
        count_of(s.skip(1), labels)
    }
}

/// The series with one more count under the labels.
pub open spec fn counted(s: SeriesView, labels: Seq<Seq<char>>) -> SeriesView
    decreases s.len(),
{
    if s.len() > 0 && labels_before(s[0].0, labels) {
        seq![s[0]] + counted(s.skip(1), labels)
    } else if s.len() > 0 && s[0].0 == labels {
        seq![(labels, (s[0].1 + 1) as u64)] + s.skip(1)
    } else {
        seq![(labels, 1u64)] + s
    }
}

// ---------------------------------------------------------------------------
// Order
// ---------------------------------------------------------------------------

proof fn lemma_text_total(a: Seq<char>, b: Seq<char>)
    ensures
        !(text_before(a, b) && text_before(b, a)),
        !text_before(a, a),
        a == b || text_before(a, b) || text_before(b, a),
    decreases a.len(),
{
    if a.len() > 0 && b.len() > 0 && a[0] == b[0] {
        lemma_text_total(a.skip(1), b.skip(1));
        if a.skip(1) == b.skip(1) {
            assert(a =~= seq![a[0]] + a.skip(1));
            assert(b =~= seq![b[0]] + b.skip(1));
        }
    }
    if a.len() == 0 && b.len() == 0 {
        assert(a =~= b);
    }
    lemma_text_irreflexive(a);
}

proof fn lemma_text_irreflexive(a: Seq<char>)
    ensures
        !text_before(a, a),
    decreases a.len(),
{
    if a.len() > 0 {
        lemma_text_irreflexive(a.skip(1));
    }
}

proof fn lemma_text_transitive(a: Seq<char>, b: Seq<char>, c: Seq<char>)
    requires
        text_before(a, b),
        text_before(b, c),
    ensures
        text_before(a, c),
    decreases a.len(),
{
    if a.len() > 0 && a[0] == b[0] && b[0] == c[0] {
        lemma_text_transitive(a.skip(1), b.skip(1), c.skip(1));
    }
}

/// Labels are totally ordered: of two, one comes before the other or they are equal, and
/// never both.
pub proof fn lemma_labels_total(a: Seq<Seq<char>>, b: Seq<Seq<char>>)
    ensures
        !(labels_before(a, b) && labels_before(b, a)),
        !labels_before(a, a),
        a == b || labels_before(a, b) || labels_before(b, a),
    decreases a.len(),
{
    if a.len() > 0 && b.len() > 0 {
        if a[0] == b[0] {
            lemma_labels_total(a.skip(1), b.skip(1));
            if a.skip(1) == b.skip(1) {
                assert(a =~= seq![a[0]] + a.skip(1));
                assert(b =~= seq![b[0]] + b.skip(1));
            }
        } else {
            lemma_text_total(a[0], b[0]);
        }
    }
    if a.len() == 0 && b.len() == 0 {
        assert(a =~= b);
    }
    lemma_labels_irreflexive(a);
}

pub proof fn lemma_labels_irreflexive(a: Seq<Seq<char>>)
    ensures
        !labels_before(a, a),
    decreases a.len(),
{
    if a.len() > 0 {
        lemma_labels_irreflexive(a.skip(1));
    }
}

pub proof fn lemma_labels_transitive(a: Seq<Seq<char>>, b: Seq<Seq<char>>, c: Seq<Seq<char>>)
    requires
        labels_before(a, b),
        labels_before(b, c),
    ensures
        labels_before(a, c),
    decreases a.len(),
{
    if a.len() > 0 {
        if a[0] == b[0] && b[0] == c[0] {
            lemma_labels_transitive(a.skip(1), b.skip(1), c.skip(1));
        } else if a[0] != b[0] && b[0] != c[0] {
            lemma_text_transitive(a[0], b[0], c[0]);
            lemma_text_irreflexive(a[0]);
        }
    }
}

// ---------------------------------------------------------------------------
// Laws
// ---------------------------------------------------------------------------

/// Counting keeps the series sorted.
pub proof fn law_counting_keeps_order(s: SeriesView, labels: Seq<Seq<char>>)
    requires
        is_sorted(s),
    ensures
        is_sorted(counted(s, labels)),
    decreases s.len(),
{
    let r = counted(s, labels);
    if s.len() > 0 && labels_before(s[0].0, labels) {
        let rest = s.skip(1);
        assert(is_sorted(rest)) by {
            assert forall|i: int, j: int|
                #![trigger rest[i], rest[j]]
                0 <= i < j < rest.len() implies labels_before(rest[i].0, rest[j].0) by {
                assert(rest[i] == s[i + 1] && rest[j] == s[j + 1]);
            }
        }
        law_counting_keeps_order(rest, labels);
        let tail = counted(rest, labels);
        assert forall|i: int, j: int|
            #![trigger r[i], r[j]]
            0 <= i < j < r.len() implies labels_before(r[i].0, r[j].0) by {
            assert(r[j] == tail[j - 1]);
            if i > 0 {
                assert(r[i] == tail[i - 1]);
            } else {
                lemma_counted_labels(rest, labels, j - 1);
                if tail[j - 1].0 != labels {
                    let l = choose|l: int| 0 <= l < rest.len() && rest[l].0 == tail[j - 1].0;
                    assert(rest[l] == s[l + 1]);
                }
            }
        }
    } else if s.len() > 0 && s[0].0 == labels {
        assert forall|i: int, j: int|
            #![trigger r[i], r[j]]
            0 <= i < j < r.len() implies labels_before(r[i].0, r[j].0) by {
            assert(r[i].0 == s[i].0 && r[j].0 == s[j].0);
        }
    } else {
        assert forall|i: int, j: int|
            #![trigger r[i], r[j]]
            0 <= i < j < r.len() implies labels_before(r[i].0, r[j].0) by {
            assert(r[j] == s[j - 1]);
            lemma_labels_total(labels, s[0].0);
            if i > 0 {
                assert(r[i] == s[i - 1]);
            } else if j > 1 {
                lemma_labels_transitive(labels, s[0].0, s[j - 1].0);
            }
        }
    }
}

/// Every label list of the counted series was there before, or is the one counted.
proof fn lemma_counted_labels(s: SeriesView, labels: Seq<Seq<char>>, i: int)
    requires
        0 <= i < counted(s, labels).len(),
    ensures
        counted(s, labels)[i].0 == labels || exists|l: int|
            0 <= l < s.len() && s[l].0 == counted(s, labels)[i].0,
    decreases s.len(),
{
    let r = counted(s, labels);
    if s.len() > 0 && labels_before(s[0].0, labels) {
        let rest = s.skip(1);
        if i == 0 {
            assert(s[0].0 == r[0].0);
        } else {
            lemma_counted_labels(rest, labels, i - 1);
            assert(r[i] == counted(rest, labels)[i - 1]);
            if r[i].0 != labels {
                let l = choose|l: int| 0 <= l < rest.len() && rest[l].0 == r[i].0;
                assert(s[l + 1].0 == r[i].0);
            }
        }
    } else if s.len() > 0 && s[0].0 == labels {
        assert(s[i].0 == r[i].0);
    } else if i > 0 {
        assert(s[i - 1].0 == r[i].0);
    }
}

/// Counting adds one to the count under the labels and changes no other.
pub proof fn law_counting_adds_one(s: SeriesView, labels: Seq<Seq<char>>, other: Seq<Seq<char>>)
    requires
        is_sorted(s),
        total(s) < u64::MAX,
    ensures
        count_of(counted(s, labels), other) == count_of(s, other) + (if other == labels {
            1nat
        } else {
            0nat
        }),
        total(counted(s, labels)) == total(s) + 1,
    decreases s.len(),
{
    let r = counted(s, labels);
    if s.len() > 0 && labels_before(s[0].0, labels) {
        let rest = s.skip(1);
        assert(is_sorted(rest)) by {
            assert forall|i: int, j: int|
                #![trigger rest[i], rest[j]]
                0 <= i < j < rest.len() implies labels_before(rest[i].0, rest[j].0) by {
                assert(rest[i] == s[i + 1] && rest[j] == s[j + 1]);
            }
        }
        law_counting_adds_one(rest, labels, other);
        assert(r.skip(1) =~= counted(rest, labels));
        lemma_labels_irreflexive(labels);
    } else if s.len() > 0 && s[0].0 == labels {
        assert(r.skip(1) =~= s.skip(1));
    } else {
        assert(r.skip(1) =~= s);
        if other == labels {
            assert(count_of(s, labels) == 0) by {
                if s.len() > 0 {
                    lemma_labels_total(labels, s[0].0);
                }
                lemma_absent(s, labels);
            }
        }
    }
}

/// Labels that come before all others of a sorted series are not among them.
proof fn lemma_absent(s: SeriesView, labels: Seq<Seq<char>>)
    requires
        is_sorted(s),
        s.len() > 0 ==> labels_before(labels, s[0].0),
    ensures
        count_of(s, labels) == 0,
    decreases s.len(),
{
    if s.len() > 0 {
        lemma_labels_irreflexive(labels);
        let rest = s.skip(1);
        if rest.len() > 0 {
            assert(rest[0] == s[1]);
            lemma_labels_transitive(labels, s[0].0, s[1].0);
        }
        assert(is_sorted(rest)) by {
            assert forall|i: int, j: int|
                #![trigger rest[i], rest[j]]
                0 <= i < j < rest.len() implies labels_before(rest[i].0, rest[j].0) by {
                assert(rest[i] == s[i + 1] && rest[j] == s[j + 1]);
            }
        }
        lemma_absent(rest, labels);
    }
}

proof fn lemma_total_covers(s: SeriesView, i: int)
    requires
        0 <= i < s.len(),
    ensures
        s[i].1 <= total(s),
    decreases s.len(),
{
    if i > 0 {
        lemma_total_covers(s.skip(1), i - 1);
        assert(s.skip(1)[i - 1] == s[i]);
    }
}

// ---------------------------------------------------------------------------
// Counters
// ---------------------------------------------------------------------------

/// How two label lists stand to each other.
#[derive(Clone, Copy, Debug, PartialEq, Eq, Structural)]
enum Rank {
    Before,
    Same,
    After,
}

fn rank_text(a: &[char], b: &[char]) -> (r: Rank)
    ensures
        match r {
            Rank::Before => text_before(a@, b@),
            Rank::Same => a@ == b@,
            Rank::After => a@ != b@ && !text_before(a@, b@),
        },
{
    let mut i: usize = 0;
    proof {
        assert(a@.skip(0) =~= a@);
        assert(b@.skip(0) =~= b@);
    }
    while i < a.len() && i < b.len()
        invariant
            i <= a@.len(),
            i <= b@.len(),
            text_before(a@, b@) == text_before(a@.skip(i as int), b@.skip(i as int)),
            (a@ == b@) == (a@.skip(i as int) == b@.skip(i as int)),
        decreases a@.len() - i,
    {
        proof {
            let x = a@.skip(i as int);
            let y = b@.skip(i as int);
            assert(x.skip(1) =~= a@.skip(i + 1));
            assert(y.skip(1) =~= b@.skip(i + 1));
            assert(x =~= seq![x[0]] + x.skip(1));
            assert(y =~= seq![y[0]] + y.skip(1));
        }
        if a[i] != b[i] {
            assert(a@.skip(i as int)[0] != b@.skip(i as int)[0]);
            return if a[i] < b[i] {
                Rank::Before
            } else {
                Rank::After
            };
        }
        i = i + 1;
    }
    if i < b.len() {
        Rank::Before
    } else if i < a.len() {
        assert(a@.skip(i as int).len() != b@.skip(i as int).len());
        Rank::After
    } else {
        assert(a@.skip(i as int) =~= b@.skip(i as int));
        Rank::Same
    }
}

/// The texts of a list of character vectors.
pub open spec fn char_texts(v: Seq<Vec<char>>) -> Seq<Seq<char>> {
    v.map_values(|t: Vec<char>| t@)
}

fn rank_labels(a: &Vec<Vec<char>>, b: &Vec<Vec<char>>) -> (r: Rank)
    ensures
        match r {
            Rank::Before => labels_before(char_texts(a@), char_texts(b@)),
            Rank::Same => char_texts(a@) == char_texts(b@),
            Rank::After => char_texts(a@) != char_texts(b@) && !labels_before(
                char_texts(a@),
                char_texts(b@),
            ),
        },
{
    let mut i: usize = 0;
    let ghost p = char_texts(a@);
    let ghost q = char_texts(b@);
    proof {
        assert(p.skip(0) =~= p);
        assert(q.skip(0) =~= q);
    }
    while i < a.len() && i < b.len()
        invariant
            p == char_texts(a@),
            q == char_texts(b@),
            i <= a@.len(),
            i <= b@.len(),
            labels_before(p, q) == labels_before(p.skip(i as int), q.skip(i as int)),
            (p == q) == (p.skip(i as int) == q.skip(i as int)),
        decreases a@.len() - i,
    {
        proof {
            let x = p.skip(i as int);
            let y = q.skip(i as int);
            assert(x.skip(1) =~= p.skip(i + 1));
            assert(y.skip(1) =~= q.skip(i + 1));
            assert(x =~= seq![x[0]] + x.skip(1));
            assert(y =~= seq![y[0]] + y.skip(1));
            assert(x[0] == a@[i as int]@);
            assert(y[0] == b@[i as int]@);
        }
        match rank_text(a[i].as_slice(), b[i].as_slice()) {
            Rank::Same => {},
            Rank::Before => {
                proof {
                    lemma_text_irreflexive(a@[i as int]@);
                }
                return Rank::Before;
            },
            Rank::After => {
                return Rank::After;
            },
        }
        i = i + 1;
    }
    if i < b.len() {
        Rank::Before
    } else if i < a.len() {
        assert(p.skip(i as int).len() != q.skip(i as int).len());
        Rank::After
    } else {
        assert(p.skip(i as int) =~= q.skip(i as int));
        Rank::Same
    }
}

/// What series are kept under: a list of labels.
pub trait SeriesKey {
    /// The labels.
    spec fn labels(&self) -> Seq<Seq<char>>;

    /// The labels' characters.
    fn label_chars(&self) -> (v: Vec<Vec<char>>)
        ensures
            char_texts(v@) == self.labels(),
    ;
}

/// Counters under labels, kept in the order of the labels.
pub struct Counters<K: SeriesKey> {
    pub entries: Vec<(K, u64)>,
}

impl<K: SeriesKey> View for Counters<K> {
    type V = SeriesView;

    open spec fn view(&self) -> SeriesView {
        self.entries@.map_values(|e: (K, u64)| (e.0.labels(), e.1))
    }
}

impl<K: SeriesKey> Counters<K> {
    /// No counters.
    pub fn new() -> (c: Counters<K>)
        ensures
            c@ == SeriesView::empty(),
    {
        let c = Counters { entries: Vec::new() };
        assert(c@ =~= SeriesView::empty());
        c
    }

    /// Whether the sum of all counts stays below the range of `u64` with `more` added.
    pub fn fits(&self, more: u128) -> (r: bool)
        requires
            more <= 0x2_0000_0000_0000_0000,
        ensures
            r == (total(self@) + more < u64::MAX),
    {
        let mut sum: u128 = more;
        let mut i: usize = 0;
        assert(self@.skip(0) =~= self@);
        while i < self.entries.len()
            invariant
                i <= self.entries@.len(),
                sum <= 0x2_0000_0000_0000_0000,
                total(self@) + more == total(self@.skip(i as int)) + sum,
            decreases self.entries@.len() - i,
        {
            if sum >= u64::MAX as u128 {
                return false;
            }
            let ghost rest = self@.skip(i as int);
            assert(rest[0] == self@[i as int]);
            assert(rest.skip(1) =~= self@.skip(i + 1));
            sum = sum + self.entries[i].1 as u128;
            i = i + 1;
        }
        sum < u64::MAX as u128
    }

    /// Counts one more under a key.
    pub fn count(&mut self, key: K)
        requires
            total(old(self)@) < u64::MAX,
        ensures
            final(self)@ == counted(old(self)@, key.labels()),
    {
        let chars = key.label_chars();
        let ghost labels = key.labels();
        let ghost before = self@;
        let mut i: usize = 0;
        assert(before.skip(0) =~= before);
        assert(before.take(0) + counted(before, labels) =~= counted(before, labels));
        while i < self.entries.len()
            invariant
                i <= self.entries@.len(),
                before == self@,
                before == old(self)@,
                total(before) < u64::MAX,
                labels == key.labels(),
                char_texts(chars@) == labels,
                counted(before, labels) == before.take(i as int) + counted(
                    before.skip(i as int),
                    labels,
                ),
            decreases self.entries@.len() - i,
        {
            let ghost rest = before.skip(i as int);
            let here = self.entries[i].0.label_chars();
            assert(rest[0] == before[i as int]);
            assert(rest[0].0 == self.entries@[i as int].0.labels());
            match rank_labels(&here, &chars) {
                Rank::Before => {
                    proof {
                        assert(rest.skip(1) =~= before.skip(i + 1));
                        assert(before.take(i as int) + (seq![rest[0]] + counted(
                            rest.skip(1),
                            labels,
                        )) =~= before.take(i + 1) + counted(before.skip(i + 1), labels));
                    }
                    i = i + 1;
                },
                Rank::Same => {
                    proof {
                        lemma_total_covers(before, i as int);
                        lemma_labels_irreflexive(labels);
                    }
                    let n: u64 = self.entries[i].1;
                    self.entries[i] = (key, n + 1);
                    proof {
                        assert(self@ =~= before.update(i as int, (labels, (n + 1) as u64)));
                        assert(before.take(i as int) + (seq![(labels, (n + 1) as u64)] + rest.skip(
                            1,
                        )) =~= before.update(i as int, (labels, (n + 1) as u64)));
                    }
                    return ;
                },
                Rank::After => {
                    self.entries.insert(i, (key, 1));
                    proof {
                        assert(self@ =~= before.insert(i as int, (labels, 1u64)));
                        assert(before.take(i as int) + (seq![(labels, 1u64)] + rest)
                            =~= before.insert(i as int, (labels, 1u64)));
                    }
                    return ;
                },
            }
        }
        self.entries.push((key, 1));
        proof {
            assert(before.skip(i as int) =~= SeriesView::empty());
            assert(self@ =~= before.push((labels, 1u64)));
            assert(before.take(i as int) + (seq![(labels, 1u64)] + before.skip(i as int))
                =~= before.push((labels, 1u64)));
        }
    }
}

impl SeriesKey for String {
    open spec fn labels(&self) -> Seq<Seq<char>> {
        seq![self@]
    }

    fn label_chars(&self) -> (v: Vec<Vec<char>>) {
        let mut v: Vec<Vec<char>> = Vec::new();
        v.push(text::chars_of(self.as_str()));
        assert(char_texts(v@) =~= seq![self@]);
        v
    }
}

} // verus!
