//! JSON text: strings, lists and objects, and what makes it well-formed.

use vstd::prelude::*;

use crate::address;
use crate::binary::Double;
use crate::number;
use crate::shortest;
use crate::text;

verus! {

/// A string.
#[verifier::opaque]
pub open spec fn string_text(s: Seq<char>) -> Seq<char> {
    "\""@ + text::json_text(s) + "\""@
}

/// A list of rendered values.
#[verifier::opaque]
pub open spec fn list_text(items: Seq<Seq<char>>) -> Seq<char> {
    "["@ + text::joined(items, ","@) + "]"@
}

/// A member of an object: its name and its rendered value.
pub open spec fn member_text(m: (Seq<char>, Seq<char>)) -> Seq<char> {
    string_text(m.0) + ":"@ + m.1
}

/// An object of named rendered values.
#[verifier::opaque]
pub open spec fn object_text(members: Seq<(Seq<char>, Seq<char>)>) -> Seq<char> {
    "{"@ + text::joined(members.map_values(|m: (Seq<char>, Seq<char>)| member_text(m)), ","@)
        + "}"@
}

// ---------------------------------------------------------------------------
// Well-formedness
// ---------------------------------------------------------------------------

/// Where a reader of JSON text stands: how deep in lists and objects, and whether inside a
/// string, there behind a backslash. `sound` while nothing was closed that was not open
/// and no control character came.
pub ghost struct Reader {
    pub depth: int,
    pub quoted: bool,
    pub escaped: bool,
    pub sound: bool,
}

/// A character that JSON text must not hold as it is.
pub open spec fn is_control(c: char) -> bool {
    (c as u32) < 32
}

impl Reader {
    /// A reader outside strings, at a depth.
    pub open spec fn at(depth: int) -> Reader {
        Reader { depth, quoted: false, escaped: false, sound: true }
    }

    /// The reader after one character. A raw control character is unsound.
    pub open spec fn step(self, c: char) -> Reader {
        if is_control(c) {
            Reader { sound: false, ..self }
        } else if self.quoted {
            if self.escaped {
                Reader { escaped: false, ..self }
            } else if c == '\\' {
                Reader { escaped: true, ..self }
            } else if c == '"' {
                Reader { quoted: false, ..self }
            } else {
                self
            }
        } else if c == '"' {
            Reader { quoted: true, ..self }
        } else if c == '{' || c == '[' {
            Reader { depth: self.depth + 1, ..self }
        } else if c == '}' || c == ']' {
            Reader { depth: self.depth - 1, sound: self.sound && self.depth > 0, ..self }
        } else {
            self
        }
    }

    /// The reader after a text.
    pub open spec fn read(self, s: Seq<char>) -> Reader
        decreases s.len(),
    {
        if s.len() == 0 {
            self
        } else {
            self.read(s.drop_last()).step(s.last())
        }
    }
}

/// At any depth, the text closes what it opens, strings too, and nothing else, and has no
/// control characters: it stands on one line.
pub open spec fn is_balanced(s: Seq<char>) -> bool {
    forall|depth: int| depth >= 0 ==> #[trigger] Reader::at(depth).read(s) == Reader::at(depth)
}

/// A character that opens, closes and ends nothing.
pub open spec fn is_plain(c: char) -> bool {
    !is_control(c) && c != '"' && c != '{' && c != '}' && c != '[' && c != ']'
}

/// Every character is plain.
pub open spec fn all_plain(s: Seq<char>) -> bool {
    forall|i: int| 0 <= i < s.len() ==> is_plain(#[trigger] s[i])
}

pub proof fn lemma_read_concat(r: Reader, a: Seq<char>, b: Seq<char>)
    ensures
        r.read(a + b) == r.read(a).read(b),
    decreases b.len(),
{
    if b.len() == 0 {
        assert(a + b =~= a);
    } else {
        lemma_read_concat(r, a, b.drop_last());
        assert((a + b).drop_last() =~= a + b.drop_last());
    }
}

proof fn lemma_control_is_unsound(r: Reader, s: Seq<char>, i: int)
    requires
        0 <= i < s.len(),
        is_control(s[i]),
    ensures
        !r.read(s).sound,
    decreases s.len(),
{
    if i < s.len() - 1 {
        lemma_control_is_unsound(r, s.drop_last(), i);
    }
}

/// Balanced text has no control characters, and so no line break.
pub proof fn lemma_balanced_is_printable(s: Seq<char>)
    requires
        is_balanced(s),
    ensures
        forall|i: int| 0 <= i < s.len() ==> !is_control(#[trigger] s[i]),
{
    assert forall|i: int| 0 <= i < s.len() implies !is_control(#[trigger] s[i]) by {
        if is_control(s[i]) {
            lemma_control_is_unsound(Reader::at(0), s, i);
            assert(Reader::at(0).read(s) == Reader::at(0));
        }
    }
}

pub proof fn lemma_plain_is_balanced(s: Seq<char>)
    requires
        all_plain(s),
    ensures
        is_balanced(s),
{
    assert forall|depth: int| depth >= 0 implies #[trigger] Reader::at(depth).read(s) == Reader::at(
        depth,
    ) by {
        lemma_plain_read(depth, s);
    }
}

proof fn lemma_plain_read(depth: int, s: Seq<char>)
    requires
        all_plain(s),
    ensures
        Reader::at(depth).read(s) == Reader::at(depth),
    decreases s.len(),
{
    if s.len() > 0 {
        let rest = s.drop_last();
        assert forall|i: int| 0 <= i < rest.len() implies is_plain(#[trigger] rest[i]) by {
            assert(rest[i] == s[i]);
        }
        lemma_plain_read(depth, rest);
        assert(is_plain(s[s.len() - 1]));
    }
}

proof fn lemma_read_pair(r: Reader, s: Seq<char>)
    requires
        s.len() == 2,
    ensures
        r.read(s) == r.step(s[0]).step(s[1]),
{
    assert(s.drop_last().drop_last() =~= Seq::empty());
    assert(r.read(s.drop_last().drop_last()) == r);
    assert(r.read(s.drop_last()) == r.step(s[0]));
}

/// Escaped text stays inside the string it stands in.
proof fn lemma_json_text_stays_quoted(depth: int, s: Seq<char>)
    ensures
        ({
            let inside = Reader { quoted: true, ..Reader::at(depth) };
            inside.read(text::json_text(s)) == inside
        }),
    decreases s.len(),
{
    let inside = Reader { quoted: true, ..Reader::at(depth) };
    if s.len() > 0 {
        let last = text::json_char(s.last());
        lemma_json_text_stays_quoted(depth, s.drop_last());
        lemma_read_concat(inside, text::json_text(s.drop_last()), last);
        if last.len() == 6 {
            let tail = seq![last[2], last[3], last[4], last[5]];
            lemma_read_pair(inside, seq![last[0], last[1]]);
            lemma_read_pair(inside, seq![last[2], last[3]]);
            lemma_read_pair(inside, seq![last[4], last[5]]);
            lemma_read_concat(inside, seq![last[2], last[3]], seq![last[4], last[5]]);
            assert(seq![last[2], last[3]] + seq![last[4], last[5]] =~= tail);
            lemma_read_concat(inside, seq![last[0], last[1]], tail);
            assert(seq![last[0], last[1]] + tail =~= last);
            let n = s.last() as u32 as nat;
            assert(last[4] == text::digit_char(n / 16) && last[5] == text::digit_char(n % 16));
            assert(inside.step(last[4]) == inside);
            assert(inside.step(last[5]) == inside);
        } else if last.len() == 2 {
            lemma_read_pair(inside, last);
        } else {
            assert(last.drop_last() =~= Seq::empty());
            assert(inside.read(last.drop_last()) == inside);
        }
    }
}

pub proof fn lemma_string_is_balanced(s: Seq<char>)
    ensures
        is_balanced(string_text(s)),
{
    reveal(string_text);
    reveal_strlit("\"");
    assert forall|depth: int| depth >= 0 implies #[trigger] Reader::at(depth).read(string_text(s))
        == Reader::at(depth) by {
        let start = Reader::at(depth);
        let inside = Reader { quoted: true, ..start };
        lemma_read_one(start, '"', "\""@);
        lemma_json_text_stays_quoted(depth, s);
        lemma_read_concat(start, "\""@, text::json_text(s));
        lemma_read_one(inside, '"', "\""@);
        lemma_read_concat(start, "\""@ + text::json_text(s), "\""@);
    }
}

proof fn lemma_read_one(r: Reader, c: char, s: Seq<char>)
    requires
        s.len() == 1,
        s[0] == c,
    ensures
        r.read(s) == r.step(c),
{
    assert(s.drop_last() =~= Seq::empty());
    assert(r.read(s.drop_last()) == r);
}

pub proof fn lemma_concat_is_balanced(a: Seq<char>, b: Seq<char>)
    requires
        is_balanced(a),
        is_balanced(b),
    ensures
        is_balanced(a + b),
{
    assert forall|depth: int| depth >= 0 implies #[trigger] Reader::at(depth).read(a + b)
        == Reader::at(depth) by {
        lemma_read_concat(Reader::at(depth), a, b);
    }
}

proof fn lemma_joined_is_balanced(items: Seq<Seq<char>>)
    requires
        forall|i: int| 0 <= i < items.len() ==> is_balanced(#[trigger] items[i]),
    ensures
        is_balanced(text::joined(items, ","@)),
    decreases items.len(),
{
    reveal_strlit(",");
    lemma_plain_is_balanced(","@);
    if items.len() == 0 {
        lemma_plain_is_balanced(Seq::empty());
    } else if items.len() == 1 {
        assert(is_balanced(items[0]));
    } else {
        let rest = items.drop_last();
        assert forall|i: int| 0 <= i < rest.len() implies is_balanced(#[trigger] rest[i]) by {
            assert(rest[i] == items[i]);
        }
        lemma_joined_is_balanced(rest);
        lemma_concat_is_balanced(text::joined(rest, ","@), ","@);
        assert(is_balanced(items[items.len() - 1]));
        lemma_concat_is_balanced(text::joined(rest, ","@) + ","@, items.last());
    }
}

/// Something balanced between an opening and a closing character is balanced.
proof fn lemma_enclosed_is_balanced(open: Seq<char>, s: Seq<char>, close: Seq<char>)
    requires
        open.len() == 1,
        open[0] == '{' || open[0] == '[',
        close.len() == 1,
        close[0] == '}' || close[0] == ']',
        is_balanced(s),
    ensures
        is_balanced(open + s + close),
{
    assert forall|depth: int| depth >= 0 implies #[trigger] Reader::at(depth).read(
        open + s + close,
    ) == Reader::at(depth) by {
        let start = Reader::at(depth);
        lemma_read_one(start, open[0], open);
        lemma_read_concat(start, open, s);
        assert(Reader::at(depth + 1).read(s) == Reader::at(depth + 1));
        lemma_read_one(Reader::at(depth + 1), close[0], close);
        lemma_read_concat(start, open + s, close);
    }
}

/// A list of balanced values is balanced.
pub proof fn lemma_list_is_balanced(items: Seq<Seq<char>>)
    requires
        forall|i: int| 0 <= i < items.len() ==> is_balanced(#[trigger] items[i]),
    ensures
        is_balanced(list_text(items)),
{
    reveal(list_text);
    reveal_strlit("[");
    reveal_strlit("]");
    lemma_joined_is_balanced(items);
    lemma_enclosed_is_balanced("["@, text::joined(items, ","@), "]"@);
}

/// An object of balanced values is balanced.
pub proof fn lemma_object_is_balanced(members: Seq<(Seq<char>, Seq<char>)>)
    requires
        forall|i: int| 0 <= i < members.len() ==> is_balanced((#[trigger] members[i]).1),
    ensures
        is_balanced(object_text(members)),
{
    reveal(object_text);
    reveal_strlit("{");
    reveal_strlit("}");
    reveal_strlit(":");
    let items = members.map_values(|m: (Seq<char>, Seq<char>)| member_text(m));
    assert forall|i: int| 0 <= i < items.len() implies is_balanced(#[trigger] items[i]) by {
        let m = members[i];
        lemma_string_is_balanced(m.0);
        lemma_plain_is_balanced(":"@);
        lemma_concat_is_balanced(string_text(m.0), ":"@);
        lemma_concat_is_balanced(string_text(m.0) + ":"@, m.1);
    }
    lemma_joined_is_balanced(items);
    lemma_enclosed_is_balanced("{"@, text::joined(items, ","@), "}"@);
}

/// A decimal number's text is balanced.
pub proof fn lemma_decimal_is_balanced(n: nat)
    ensures
        is_balanced(text::dec_text(n)),
{
    lemma_digits_plain(n);
    lemma_plain_is_balanced(text::dec_text(n));
}

proof fn lemma_digits_plain(n: nat)
    ensures
        all_plain(text::dec_text(n)),
    decreases n,
{
    let s = text::dec_text(n);
    if n >= 10 {
        lemma_digits_plain(n / 10);
        assert forall|i: int| 0 <= i < s.len() implies is_plain(#[trigger] s[i]) by {
            if i < s.len() - 1 {
                assert(s[i] == text::dec_text(n / 10)[i]);
            }
        }
    }
}

proof fn lemma_padded_plain(n: nat, width: nat)
    ensures
        all_plain(text::dec_padded(n, width)),
    decreases width,
{
    let s = text::dec_padded(n, width);
    if width > 0 {
        let front = text::dec_padded(n / 10, (width - 1) as nat);
        lemma_padded_plain(n / 10, (width - 1) as nat);
        assert forall|i: int| 0 <= i < s.len() implies is_plain(#[trigger] s[i]) by {
            if i < s.len() - 1 {
                assert(s[i] == front[i]);
            }
        }
    }
}

/// A double's shortest text is balanced.
pub proof fn lemma_plain_text_is_balanced(d: Double)
    ensures
        is_balanced(shortest::plain_text(d)),
{
    reveal_strlit(".");
    lemma_plain_is_balanced("."@);
    lemma_decimal_is_balanced(0);
    let k = shortest::coarsest(d);
    let n = shortest::nearest_multiple(d, k);
    if k >= 0 {
        lemma_decimal_is_balanced(n * number::pow10(k as nat));
    } else {
        let places = (-k) as nat;
        let whole = text::dec_text(n / number::pow10(places));
        let fraction = text::dec_padded(n % number::pow10(places), places);
        lemma_decimal_is_balanced(n / number::pow10(places));
        lemma_padded_plain(n % number::pow10(places), places);
        lemma_plain_is_balanced(fraction);
        lemma_concat_is_balanced(whole, "."@);
        lemma_concat_is_balanced(whole + "."@, fraction);
    }
}

/// A quotient's text is balanced.
pub proof fn lemma_quotient_is_balanced(num: nat, den: nat, places: nat)
    ensures
        is_balanced(number::fixed_text(num, den, places)),
{
    reveal_strlit(".");
    lemma_plain_is_balanced("."@);
    let n = if den == 0 {
        0
    } else {
        number::rounded(num * number::pow10(places), den)
    };
    let whole = text::dec_text(n / number::pow10(places));
    let fraction = text::dec_padded(n % number::pow10(places), places);
    lemma_decimal_is_balanced(n);
    lemma_decimal_is_balanced(n / number::pow10(places));
    lemma_padded_plain(n % number::pow10(places), places);
    lemma_plain_is_balanced(fraction);
    lemma_concat_is_balanced(whole, "."@);
    lemma_concat_is_balanced(whole + "."@, fraction);
}

// ---------------------------------------------------------------------------
// Values
// ---------------------------------------------------------------------------

/// A number: a whole part without leading zeros, and digits behind a point or none.
pub open spec fn is_number(s: Seq<char>) -> bool {
    exists|n: nat, fraction: Seq<char>| #[trigger]
        number_parts(n, fraction) == s && text::all_digits(fraction)
}

/// A number's text from its parts.
pub open spec fn number_parts(n: nat, fraction: Seq<char>) -> Seq<char> {
    if fraction.len() == 0 {
        text::dec_text(n)
    } else {
        text::dec_text(n) + "."@ + fraction
    }
}

/// A string or a number.
pub open spec fn is_scalar(s: Seq<char>) -> bool {
    is_number(s) || exists|t: Seq<char>| s == #[trigger] string_text(t)
}

pub proof fn lemma_decimal_is_number(n: nat)
    ensures
        is_number(text::dec_text(n)),
{
    assert(number_parts(n, Seq::empty()) == text::dec_text(n));
}

pub proof fn lemma_fixed_is_number(num: nat, den: nat, places: nat)
    ensures
        is_number(number::fixed_text(num, den, places)),
{
    let n = if den == 0 {
        0
    } else {
        number::rounded(num * number::pow10(places), den)
    };
    if places == 0 {
        lemma_decimal_is_number(n);
        assert(number::fixed_text(num, den, places) == text::dec_text(n));
    } else {
        let fraction = text::dec_padded(n % number::pow10(places), places);
        lemma_padded_digits(n % number::pow10(places), places);
        lemma_parts_are_number(n / number::pow10(places), fraction);
        assert(number_parts(n / number::pow10(places), fraction) =~= number::fixed_text(
            num,
            den,
            places,
        ));
    }
}

proof fn lemma_parts_are_number(n: nat, fraction: Seq<char>)
    requires
        text::all_digits(fraction),
    ensures
        is_number(number_parts(n, fraction)),
{
}

pub proof fn lemma_padded_digits(n: nat, width: nat)
    ensures
        text::all_digits(text::dec_padded(n, width)),
        text::dec_padded(n, width).len() == width,
    decreases width,
{
    let s = text::dec_padded(n, width);
    if width > 0 {
        let front = text::dec_padded(n / 10, (width - 1) as nat);
        lemma_padded_digits(n / 10, (width - 1) as nat);
        assert forall|i: int| 0 <= i < s.len() implies '0' <= #[trigger] s[i] <= '9' by {
            if i < s.len() - 1 {
                assert(s[i] == front[i]);
            }
        }
    }
}

/// The character that a two-character escape stands for.
pub open spec fn short_escape(c: char) -> Option<char> {
    if c == '"' || c == '\\' || c == '/' {
        Some(c)
    } else if c == 'n' {
        Some('\n')
    } else if c == 't' {
        Some('\t')
    } else if c == 'r' {
        Some('\r')
    } else if c == 'b' {
        Some(8u8 as char)
    } else if c == 'f' {
        Some(12u8 as char)
    } else {
        None
    }
}

/// The character that the four digits of a `\\u` escape stand for.
pub open spec fn long_escape(s: Seq<char>) -> Option<char> {
    match (
        address::hex_digit_value(s[0]),
        address::hex_digit_value(s[1]),
        address::hex_digit_value(s[2]),
        address::hex_digit_value(s[3]),
    ) {
        (Some(a), Some(b), Some(c), Some(d)) => {
            let n = ((a * 16 + b) * 16 + c) * 16 + d;
            if 0xd800 <= n <= 0xdfff {
                None
            } else {
                Some(n as char)
            }
        },
        _ => None,
    }
}

/// `c` before what follows, if that can be read.
pub open spec fn before(c: char, rest: Option<Seq<char>>) -> Option<Seq<char>> {
    match rest {
        Some(t) => Some(seq![c] + t),
        None => None,
    }
}

/// What a reader takes the inside of a JSON string for; `None` where it is no such text.
pub open spec fn decoded(s: Seq<char>) -> Option<Seq<char>>
    decreases s.len(),
{
    if s.len() == 0 {
        Some(Seq::empty())
    } else if s[0] == '"' || is_control(s[0]) {
        None
    } else if s[0] != '\\' {
        before(s[0], decoded(s.skip(1)))
    } else if s.len() >= 6 && s[1] == 'u' {
        match long_escape(s.subrange(2, 6)) {
            Some(c) => before(c, decoded(s.skip(6))),
            None => None,
        }
    } else if s.len() >= 2 {
        match short_escape(s[1]) {
            Some(c) => before(c, decoded(s.skip(2))),
            None => None,
        }
    } else {
        None
    }
}

/// Escaping loses nothing: a reader of the string gets the text back.
pub proof fn law_escaped_text_reads_back(s: Seq<char>)
    ensures
        decoded(text::json_text(s)) == Some(s),
{
    lemma_decoded_prefix(s, Seq::empty());
    assert(text::json_text(s) + Seq::<char>::empty() =~= text::json_text(s));
    assert(decoded(Seq::empty()) == Some(Seq::<char>::empty()));
    assert(s + Seq::<char>::empty() =~= s);
}

proof fn lemma_decoded_prefix(s: Seq<char>, rest: Seq<char>)
    requires
        decoded(rest) is Some,
    ensures
        decoded(text::json_text(s) + rest) == Some(s + decoded(rest)->0),
    decreases s.len(),
{
    if s.len() == 0 {
        assert(text::json_text(s) + rest =~= rest);
        assert(s + decoded(rest)->0 =~= decoded(rest)->0);
    } else {
        let c = s.last();
        let more = text::json_char(c) + rest;
        lemma_decoded_char(c, rest);
        lemma_decoded_prefix(s.drop_last(), more);
        assert(text::json_text(s) + rest =~= text::json_text(s.drop_last()) + more);
        assert(s.drop_last() + (seq![c] + decoded(rest)->0) =~= s + decoded(rest)->0);
    }
}

proof fn lemma_decoded_char(c: char, rest: Seq<char>)
    ensures
        decoded(text::json_char(c) + rest) == before(c, decoded(rest)),
{
    let e = text::json_char(c);
    let s = e + rest;
    assert(s.skip(e.len() as int) =~= rest);
    if e.len() == 6 {
        let n = c as u32 as nat;
        assert(s.subrange(2, 6) =~= seq!['0', '0', text::digit_char(n / 16), text::digit_char(n % 16)]);
        assert(long_escape(s.subrange(2, 6)) == Some(c));
    }
}

// ---------------------------------------------------------------------------
// Rendering
// ---------------------------------------------------------------------------

/// Renders a string.
pub fn string(s: &str) -> (r: String)
    ensures
        r@ == string_text(s@),
{
    proof {
        reveal(string_text);
    }
    let mut r = "\"".to_owned();
    r.append(text::json_escape(s).as_str());
    r.append("\"");
    r
}

/// Renders a list of rendered values.
pub fn list(items: &Vec<String>) -> (r: String)
    ensures
        r@ == list_text(text::string_texts(items@)),
{
    proof {
        reveal(list_text);
    }
    let mut r = "[".to_owned();
    r.append(text::join(items, ",").as_str());
    r.append("]");
    r
}

/// The members of an object under construction.
pub struct Object {
    members: Vec<String>,
    seen: Ghost<Seq<(Seq<char>, Seq<char>)>>,
}

impl View for Object {
    type V = Seq<(Seq<char>, Seq<char>)>;

    closed spec fn view(&self) -> Seq<(Seq<char>, Seq<char>)> {
        self.seen@
    }
}

impl Object {
    /// The rendered members are those of the view.
    pub closed spec fn wf(self) -> bool {
        text::string_texts(self.members@) == self.seen@.map_values(
            |m: (Seq<char>, Seq<char>)| member_text(m),
        )
    }

    /// An object without members.
    pub fn new() -> (o: Object)
        ensures
            o.wf(),
            o@ == Seq::<(Seq<char>, Seq<char>)>::empty(),
    {
        let o = Object { members: Vec::new(), seen: Ghost(Seq::empty()) };
        assert(text::string_texts(o.members@) =~= o.seen@.map_values(
            |m: (Seq<char>, Seq<char>)| member_text(m),
        ));
        o
    }

    /// Adds a member with a rendered value.
    pub fn set(&mut self, name: &str, value: &str)
        requires
            old(self).wf(),
        ensures
            final(self).wf(),
            final(self)@ == old(self)@.push((name@, value@)),
    {
        let ghost before = text::string_texts(self.members@);
        let mut s = string(name);
        s.append(":");
        s.append(value);
        assert(s@ == member_text((name@, value@)));
        self.members.push(s);
        self.seen = Ghost(self.seen@.push((name@, value@)));
        proof {
            let after = self.seen@.map_values(|m: (Seq<char>, Seq<char>)| member_text(m));
            assert(text::string_texts(self.members@) =~= before.push(s@));
            assert(after =~= before.push(s@));
        }
    }

    /// Adds a member with a string.
    pub fn set_text(&mut self, name: &str, value: &str)
        requires
            old(self).wf(),
        ensures
            final(self).wf(),
            final(self)@ == old(self)@.push((name@, string_text(value@))),
    {
        let s = string(value);
        self.set(name, s.as_str());
    }

    /// Renders the object.
    pub fn render(&self) -> (r: String)
        requires
            self.wf(),
        ensures
            r@ == object_text(self@),
    {
        proof {
            reveal(object_text);
        }
        let mut r = "{".to_owned();
        r.append(text::join(&self.members, ",").as_str());
        r.append("}");
        r
    }
}

} // verus!
