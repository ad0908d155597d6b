//! What a reader of the published JSON finds in it.

use vstd::prelude::*;

use crate::json;
use crate::text;

verus! {

/// A JSON document. Numbers and words stand in it as they are written.
pub ghost enum Json {
    Text(Seq<char>),
    Bare(Seq<char>),
    List(Seq<Json>),
    Object(Seq<(Seq<char>, Json)>),
}

/// The digit that a character stands for in base sixteen.
pub open spec fn hex_digit(c: char) -> Option<int> {
    if '0' <= c <= '9' {
        Some(c as u32 - 48)
    } else if 'a' <= c <= 'f' {
        Some(c as u32 - 87)
    } else if 'A' <= c <= 'F' {
        Some(c as u32 - 55)
    } else {
        None
    }
}

/// The character behind a backslash.
pub open spec fn escaped(c: char) -> Option<char> {
    if c == '"' || c == '\\' || c == '/' {
        Some(c)
    } else if c == 'n' {
        Some('\n')
    } else if c == 't' {
        Some('\t')
    } else if c == 'r' {
        Some('\r')
    } else {
        None
    }
}

/// The string whose opening quote has been read, and what follows its closing quote.
pub open spec fn quoted(s: Seq<char>) -> Option<(Seq<char>, Seq<char>)>
    decreases s.len(),
{
    if s.len() == 0 || (s[0] as u32) < 32 {
        None
    } else if s[0] == '"' {
        Some((Seq::empty(), s.skip(1)))
    } else if s[0] != '\\' {
        match quoted(s.skip(1)) {
            Some((t, rest)) => Some((seq![s[0]] + t, rest)),
            None => None,
        }
    } else if s.len() < 2 {
        None
    } else if s[1] == 'u' {
        if s.len() < 6 {
            None
        } else {
            match (
                hex_digit(s[2]),
                hex_digit(s[3]),
                hex_digit(s[4]),
                hex_digit(s[5]),
                quoted(s.skip(6)),
            ) {
                (Some(a), Some(b), Some(c), Some(d), Some((t, rest))) => Some(
                    (seq![(((a * 16 + b) * 16 + c) * 16 + d) as char] + t, rest),
                ),
                _ => None,
            }
        }
    } else {
        match (escaped(s[1]), quoted(s.skip(2))) {
            (Some(c), Some((t, rest))) => Some((seq![c] + t, rest)),
            _ => None,
        }
    }
}

/// The character ends a number or a word.
pub open spec fn ends_bare(c: char) -> bool {
    c == ',' || c == ']' || c == '}'
}

/// The length of the number or word that the text starts with.
pub open spec fn bare_len(s: Seq<char>) -> int
    decreases s.len(),
{
    if s.len() == 0 || ends_bare(s[0]) {
        0
    } else {
        1 + bare_len(s.skip(1))
    }
}

/// The value that the text starts with, and what follows it.
pub open spec fn value(s: Seq<char>) -> Option<(Json, Seq<char>)>
    decreases s.len(), 1nat,
{
    if s.len() == 0 {
        None
    } else if s[0] == '"' {
        match quoted(s.skip(1)) {
            Some((t, rest)) => Some((Json::Text(t), rest)),
            None => None,
        }
    } else if s[0] == '[' {
        if s.len() > 1 && s[1] == ']' {
            Some((Json::List(Seq::empty()), s.skip(2)))
        } else {
            match items(s.skip(1)) {
                Some((v, rest)) => Some((Json::List(v), rest)),
                None => None,
            }
        }
    } else if s[0] == '{' {
        if s.len() > 1 && s[1] == '}' {
            Some((Json::Object(Seq::empty()), s.skip(2)))
        } else {
            match members(s.skip(1)) {
                Some((v, rest)) => Some((Json::Object(v), rest)),
                None => None,
            }
        }
    } else {
        let n = bare_len(s);
        if 0 < n <= s.len() {
            Some((Json::Bare(s.take(n)), s.skip(n)))
        } else {
            None
        }
    }
}

/// The rest of a list, from an item on.
pub open spec fn items(s: Seq<char>) -> Option<(Seq<Json>, Seq<char>)>
    decreases s.len(), 2nat,
{
    match value(s) {
        Some((v, rest)) => if rest.len() == 0 || rest.len() > s.len() {
            None
        } else if rest[0] == ']' {
            Some((seq![v], rest.skip(1)))
        } else if rest[0] == ',' {
            match items(rest.skip(1)) {
                Some((more, end)) => Some((seq![v] + more, end)),
                None => None,
            }
        } else {
            None
        },
        None => None,
    }
}

/// The rest of an object, from a member on.
pub open spec fn members(s: Seq<char>) -> Option<(Seq<(Seq<char>, Json)>, Seq<char>)>
    decreases s.len(), 2nat,
{
    if s.len() == 0 || s[0] != '"' {
        None
    } else {
        match quoted(s.skip(1)) {
            Some((k, colon)) => if colon.len() == 0 || colon[0] != ':' || colon.len() > s.len() {
                None
            } else {
                match value(colon.skip(1)) {
                    Some((v, rest)) => if rest.len() == 0 || rest.len() > s.len() {
                        None
                    } else if rest[0] == '}' {
                        Some((seq![(k, v)], rest.skip(1)))
                    } else if rest[0] == ',' {
                        match members(rest.skip(1)) {
                            Some((more, end)) => Some((seq![(k, v)] + more, end)),
                            None => None,
                        }
                    } else {
                        None
                    },
                    None => None,
                }
            },
            None => None,
        }
    }
}

/// The document that a whole text writes.
pub open spec fn read(s: Seq<char>) -> Option<Json> {
    match value(s) {
        Some((v, rest)) => if rest.len() == 0 {
            Some(v)
        } else {
            None
        },
        None => None,
    }
}

/// The value of the first member of that name; an empty list where there is none.
pub open spec fn first_member(ms: Seq<(Seq<char>, Json)>, name: Seq<char>) -> Json
    decreases ms.len(),
{
    if ms.len() == 0 {
        Json::List(Seq::empty())
    } else if ms[0].0 == name {
        ms[0].1
    } else {
        first_member(ms.skip(1), name)
    }
}

impl Json {
    /// The member of an object.
    pub open spec fn get(self, name: Seq<char>) -> Json {
        match self {
            Json::Object(ms) => first_member(ms, name),
            _ => Json::List(Seq::empty()),
        }
    }

    /// The items of a list.
    pub open spec fn all(self) -> Seq<Json> {
        match self {
            Json::List(v) => v,
            _ => Seq::empty(),
        }
    }

    /// The value is a string that writes a number in decimal.
    pub open spec fn is_count(self, n: nat) -> bool {
        match self {
            Json::Text(t) => t.len() > 0 && text::all_digits(t) && text::dec_value(t) == n,
            _ => false,
        }
    }
}

// ---------------------------------------------------------------------------
// Reading what was written
// ---------------------------------------------------------------------------

/// What may follow a value.
pub open spec fn may_follow(rest: Seq<char>) -> bool {
    rest.len() == 0 || ends_bare(rest[0])
}

/// Wherever the text stands, it is read as that value.
pub open spec fn writes(t: Seq<char>, v: Json) -> bool {
    forall|rest: Seq<char>| may_follow(rest) ==> #[trigger] value(t + rest) == Some((v, rest))
}

pub proof fn lemma_written_is_read(t: Seq<char>, v: Json)
    requires
        writes(t, v),
    ensures
        read(t) == Some(v),
{
    let none = Seq::<char>::empty();
    assert(value(t + none) == Some((v, none)));
    assert(t + none =~= t);
}

proof fn lemma_quoted_char(c: char, rest: Seq<char>)
    requires
        quoted(rest) is Some,
    ensures
        quoted(text::json_char(c) + rest) == Some((seq![c] + (quoted(rest)->0).0,
            (quoted(rest)->0).1)),
{
    let e = text::json_char(c);
    let s = e + rest;
    if e.len() == 1 {
        assert(s.skip(1) =~= rest);
    } else if e.len() == 2 {
        assert(s.skip(2) =~= rest);
    } else {
        assert(s.skip(6) =~= rest);
        let n = c as u32 as nat;
        assert(s[4] == text::digit_char(n / 16) && s[5] == text::digit_char(n % 16));
        assert(hex_digit(s[2]) == Some(0int) && hex_digit(s[3]) == Some(0int));
        assert(hex_digit(s[4]) == Some((n / 16) as int));
        assert(hex_digit(s[5]) == Some((n % 16) as int));
        assert((n / 16) * 16 + n % 16 == n);
    }
}

proof fn lemma_quoted_text(s: Seq<char>, rest: Seq<char>)
    requires
        quoted(rest) is Some,
    ensures
        quoted(text::json_text(s) + rest) == Some((s + (quoted(rest)->0).0, (quoted(rest)->0).1)),
    decreases s.len(),
{
    if s.len() == 0 {
        assert(text::json_text(s) + rest =~= rest);
        assert(s + (quoted(rest)->0).0 =~= (quoted(rest)->0).0);
    } else {
        let c = s.last();
        let more = text::json_char(c) + rest;
        lemma_quoted_char(c, rest);
        lemma_quoted_text(s.drop_last(), more);
        assert(text::json_text(s) + rest =~= text::json_text(s.drop_last()) + more);
        assert(s.drop_last() + (seq![c] + (quoted(rest)->0).0) =~= s + (quoted(rest)->0).0);
    }
}

proof fn lemma_string_is_quoted(s: Seq<char>, rest: Seq<char>)
    ensures
        ({
            let t = json::string_text(s) + rest;
            &&& t.len() > 0
            &&& t[0] == '"'
            &&& quoted(t.skip(1)) == Some((s, rest))
        }),
{
    reveal(json::string_text);
    reveal_strlit("\"");
    let t = json::string_text(s) + rest;
    let end = seq!['"'] + rest;
    assert(end.skip(1) =~= rest);
    assert(quoted(end) == Some((Seq::<char>::empty(), rest)));
    lemma_quoted_text(s, end);
    assert(t.skip(1) =~= text::json_text(s) + end);
    assert(s + Seq::<char>::empty() =~= s);
}

/// A rendered string is read as that string.
pub proof fn lemma_string_writes(s: Seq<char>)
    ensures
        writes(json::string_text(s), Json::Text(s)),
{
    assert forall|rest: Seq<char>| may_follow(rest) implies #[trigger] value(
        json::string_text(s) + rest,
    ) == Some((Json::Text(s), rest)) by {
        lemma_string_is_quoted(s, rest);
    }
}

/// The text can stand as a number or a word.
pub open spec fn is_bare(t: Seq<char>) -> bool {
    &&& t.len() > 0
    &&& t[0] != '"' && t[0] != '[' && t[0] != '{'
    &&& forall|i: int| 0 <= i < t.len() ==> !ends_bare(#[trigger] t[i])
}

proof fn lemma_bare_len(t: Seq<char>, rest: Seq<char>)
    requires
        forall|i: int| 0 <= i < t.len() ==> !ends_bare(#[trigger] t[i]),
        may_follow(rest),
    ensures
        bare_len(t + rest) == t.len(),
    decreases t.len(),
{
    if t.len() == 0 {
        assert(t + rest =~= rest);
    } else {
        let u = t.skip(1);
        assert forall|i: int| 0 <= i < u.len() implies !ends_bare(#[trigger] u[i]) by {
            assert(u[i] == t[i + 1]);
        }
        lemma_bare_len(u, rest);
        assert((t + rest).skip(1) =~= u + rest);
        assert(!ends_bare(t[0]));
    }
}

/// A number or word is read as it stands.
pub proof fn lemma_bare_writes(t: Seq<char>)
    requires
        is_bare(t),
    ensures
        writes(t, Json::Bare(t)),
{
    assert forall|rest: Seq<char>| may_follow(rest) implies #[trigger] value(t + rest) == Some(
        (Json::Bare(t), rest),
    ) by {
        lemma_bare_len(t, rest);
        assert((t + rest).take(t.len() as int) =~= t);
        assert((t + rest).skip(t.len() as int) =~= rest);
        assert((t + rest)[0] == t[0]);
    }
}

proof fn lemma_joined_first(ts: Seq<Seq<char>>)
    requires
        ts.len() > 1,
    ensures
        text::joined(ts, ","@) == ts[0] + ","@ + text::joined(ts.skip(1), ","@),
    decreases ts.len(),
{
    let sep = ","@;
    let last = ts.drop_last();
    if ts.len() == 2 {
        assert(ts.skip(1)[0] == ts[1]);
        assert(last[0] == ts[0]);
        assert(text::joined(last, sep) == ts[0]);
        assert(text::joined(ts.skip(1), sep) == ts[1]);
    } else {
        lemma_joined_first(last);
        assert(last.skip(1) =~= ts.skip(1).drop_last());
        assert(ts.skip(1).last() == ts.last());
        assert(text::joined(ts, sep) =~= ts[0] + sep + text::joined(ts.skip(1), sep));
    }
}

proof fn lemma_items(ts: Seq<Seq<char>>, vs: Seq<Json>, rest: Seq<char>)
    requires
        ts.len() == vs.len() > 0,
        forall|i: int| 0 <= i < ts.len() ==> writes(#[trigger] ts[i], vs[i]),
    ensures
        items(text::joined(ts, ","@) + (seq![']'] + rest)) == Some((vs, rest)),
    decreases ts.len(),
{
    reveal_strlit(",");
    let end = seq![']'] + rest;
    let s = text::joined(ts, ","@) + end;
    assert(writes(ts[0], vs[0]));
    if ts.len() == 1 {
        assert(may_follow(end));
        assert(value(ts[0] + end) == Some((vs[0], end)));
        assert(end.skip(1) =~= rest);
        assert(seq![vs[0]] =~= vs);
    } else {
        let us = ts.skip(1);
        let ws = vs.skip(1);
        assert forall|i: int| 0 <= i < us.len() implies writes(#[trigger] us[i], ws[i]) by {
            assert(us[i] == ts[i + 1] && ws[i] == vs[i + 1]);
            assert(writes(ts[i + 1], vs[i + 1]));
        }
        lemma_items(us, ws, rest);
        lemma_joined_first(ts);
        let more = text::joined(us, ","@) + end;
        let tail = seq![','] + more;
        assert(s =~= ts[0] + tail);
        assert(may_follow(tail));
        assert(value(ts[0] + tail) == Some((vs[0], tail)));
        assert(tail.skip(1) =~= more);
        assert(seq![vs[0]] + ws =~= vs);
    }
}

/// A rendered list is read as the list of its items.
pub proof fn lemma_list_writes(ts: Seq<Seq<char>>, vs: Seq<Json>)
    requires
        ts.len() == vs.len(),
        forall|i: int| 0 <= i < ts.len() ==> writes(#[trigger] ts[i], vs[i]),
    ensures
        writes(json::list_text(ts), Json::List(vs)),
{
    reveal(json::list_text);
    reveal_strlit("[");
    reveal_strlit("]");
    assert forall|rest: Seq<char>| may_follow(rest) implies #[trigger] value(
        json::list_text(ts) + rest,
    ) == Some((Json::List(vs), rest)) by {
        let s = json::list_text(ts) + rest;
        let end = seq![']'] + rest;
        if ts.len() == 0 {
            assert(s.skip(2) =~= rest);
            assert(vs =~= Seq::empty());
        } else {
            lemma_items(ts, vs, rest);
            let inner = text::joined(ts, ","@) + end;
            assert(s.skip(1) =~= inner);
            if s[1] == ']' {
                lemma_never_closes(ts[0], vs[0]);
                lemma_joined_start(ts);
                assert(s[1] == ts[0][0]);
            }
        }
    }
}

/// A value's text is not empty and does not start with what ends one.
proof fn lemma_never_closes(t: Seq<char>, v: Json)
    requires
        writes(t, v),
    ensures
        t.len() > 0,
        !ends_bare(t[0]),
{
    let none = Seq::<char>::empty();
    assert(value(t + none) == Some((v, none)));
    assert(t + none =~= t);
}

proof fn lemma_joined_start(ts: Seq<Seq<char>>)
    requires
        ts.len() > 0,
        ts[0].len() > 0,
    ensures
        text::joined(ts, ","@).len() > 0,
        text::joined(ts, ","@)[0] == ts[0][0],
{
    if ts.len() > 1 {
        lemma_joined_first(ts);
    }
}

proof fn lemma_members(
    ms: Seq<(Seq<char>, Seq<char>)>,
    vs: Seq<(Seq<char>, Json)>,
    rest: Seq<char>,
)
    requires
        ms.len() == vs.len() > 0,
        forall|i: int|
            0 <= i < ms.len() ==> (#[trigger] ms[i]).0 == vs[i].0 && writes(ms[i].1, vs[i].1),
    ensures
        members(
            text::joined(
                ms.map_values(|m: (Seq<char>, Seq<char>)| json::member_text(m)),
                ","@,
            ) + (seq!['}'] + rest),
        ) == Some((vs, rest)),
    decreases ms.len(),
{
    reveal_strlit(",");
    reveal_strlit(":");
    let f = |m: (Seq<char>, Seq<char>)| json::member_text(m);
    let ts = ms.map_values(f);
    let end = seq!['}'] + rest;
    let s = text::joined(ts, ","@) + end;
    let k = ms[0].0;
    let t = ms[0].1;
    assert(ms[0].0 == vs[0].0 && writes(t, vs[0].1));
    assert(ts[0] == json::member_text(ms[0]));
    if ms.len() == 1 {
        let colon = seq![':'] + (t + end);
        assert(s =~= json::string_text(k) + colon);
        lemma_string_is_quoted(k, colon);
        assert(colon.skip(1) =~= t + end);
        assert(may_follow(end));
        assert(value(t + end) == Some((vs[0].1, end)));
        assert(end.skip(1) =~= rest);
        assert(seq![(k, vs[0].1)] =~= vs);
        lemma_string_len(k);
    } else {
        let ns = ms.skip(1);
        let ws = vs.skip(1);
        assert forall|i: int| 0 <= i < ns.len() implies (#[trigger] ns[i]).0 == ws[i].0 && writes(
            ns[i].1,
            ws[i].1,
        ) by {
            assert(ns[i] == ms[i + 1] && ws[i] == vs[i + 1]);
        }
        lemma_members(ns, ws, rest);
        assert(ts.skip(1) =~= ns.map_values(f));
        lemma_joined_first(ts);
        let more = text::joined(ns.map_values(f), ","@) + end;
        let tail = seq![','] + more;
        let colon = seq![':'] + (t + tail);
        assert(s =~= json::string_text(k) + colon);
        lemma_string_is_quoted(k, colon);
        assert(colon.skip(1) =~= t + tail);
        assert(may_follow(tail));
        assert(value(t + tail) == Some((vs[0].1, tail)));
        assert(tail.skip(1) =~= more);
        assert(seq![(k, vs[0].1)] + ws =~= vs);
        lemma_string_len(k);
    }
}

proof fn lemma_string_len(s: Seq<char>)
    ensures
        json::string_text(s).len() >= 2,
        json::string_text(s)[0] == '"',
{
    reveal(json::string_text);
    reveal_strlit("\"");
}

/// A rendered object is read as the object of its members.
pub proof fn lemma_object_writes(ms: Seq<(Seq<char>, Seq<char>)>, vs: Seq<(Seq<char>, Json)>)
    requires
        ms.len() == vs.len() > 0,
        forall|i: int|
            0 <= i < ms.len() ==> (#[trigger] ms[i]).0 == vs[i].0 && writes(ms[i].1, vs[i].1),
    ensures
        writes(json::object_text(ms), Json::Object(vs)),
{
    reveal(json::object_text);
    reveal_strlit("{");
    reveal_strlit("}");
    let f = |m: (Seq<char>, Seq<char>)| json::member_text(m);
    let ts = ms.map_values(f);
    assert forall|rest: Seq<char>| may_follow(rest) implies #[trigger] value(
        json::object_text(ms) + rest,
    ) == Some((Json::Object(vs), rest)) by {
        let s = json::object_text(ms) + rest;
        let end = seq!['}'] + rest;
        lemma_members(ms, vs, rest);
        assert(s.skip(1) =~= text::joined(ts, ","@) + end);
        assert(ts[0] == json::member_text(ms[0]));
        lemma_string_len(ms[0].0);
        assert(ts[0][0] == '"');
        lemma_joined_start(ts);
        assert(s[1] == '"');
    }
}

} // verus!
