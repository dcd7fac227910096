//! Reading a message back from its encoded form. The grammar accepted is a
//! JSON object whose members are string keys with string or number values,
//! with JSON whitespace around the tokens; the field rules then ask for each
//! of the four fields exactly once, with the right kind of value, and reject
//! any other key.

use crate::json::{
    content_key, decimal, encoding, escape_char, escaped, id_key, member_text, json_text, json_unsigned, quoted, read_text,
    read_unsigned, sender_key, text_view, timestamp_key,
};
use crate::message::{AppError, Message, MessageView};
use vstd::prelude::*;
use vstd::string::*;

verus! {

// ---------------------------------------------------------------------
// Grammar
// ---------------------------------------------------------------------

pub open spec fn is_ws(c: char) -> bool {
    c == ' ' || c == '\t' || c == '\n' || c == '\r'
}

/// The first position at or after `i` that holds no whitespace.
pub open spec fn skip_ws(s: Seq<char>, i: int) -> int
    decreases s.len() - i,
{
    if 0 <= i < s.len() && is_ws(s[i]) {
        skip_ws(s, i + 1)
    } else {
        i
    }
}

/// The position of the quote that closes a string literal whose body starts
/// at `i`; a backslash always takes the next character with it.
pub open spec fn closing_quote(s: Seq<char>, i: int) -> Option<int>
    decreases s.len() - i,
{
    if i < 0 || i >= s.len() {
        None
    } else if s[i] == '"' {
        Some(i)
    } else if s[i] == '\\' {
        if i + 1 < s.len() {
            closing_quote(s, i + 2)
        } else {
            None
        }
    } else {
        closing_quote(s, i + 1)
    }
}

pub open spec fn is_number_char(c: char) -> bool {
    ('0' <= c && c <= '9') || c == '-' || c == '+' || c == '.' || c == 'e' || c == 'E'
}

/// The end of the run of number characters that starts at `i`.
pub open spec fn number_end(s: Seq<char>, i: int) -> int
    decreases s.len() - i,
{
    if 0 <= i < s.len() && is_number_char(s[i]) {
        number_end(s, i + 1)
    } else {
        i
    }
}

/// Where a member's key and value literals lie in the text.
pub ghost struct Span {
    pub key_start: int,
    pub key_end: int,
    pub value_start: int,
    pub value_end: int,
    pub quoted: bool,
}

/// The end of the value literal at `i`, and whether it is a string.
pub open spec fn value_end(s: Seq<char>, i: int) -> Option<(int, bool)> {
    if 0 <= i < s.len() && s[i] == '"' {
        match closing_quote(s, i + 1) {
            Some(e) => Some((e + 1, true)),
            None => None,
        }
    } else if number_end(s, i) > i {
        Some((number_end(s, i), false))
    } else {
        None
    }
}

/// The member `"key" : value` that starts at `i`.
pub open spec fn member_at(s: Seq<char>, i: int) -> Option<Span> {
    if 0 <= i < s.len() && s[i] == '"' {
        match closing_quote(s, i + 1) {
            Some(q) => {
                let c = skip_ws(s, q + 1);
                if c < s.len() && s[c] == ':' {
                    let v = skip_ws(s, c + 1);
                    match value_end(s, v) {
                        Some(ve) => Some(
                            Span {
                                key_start: i,
                                key_end: q + 1,
                                value_start: v,
                                value_end: ve.0,
                                quoted: ve.1,
                            },
                        ),
                        None => None,
                    }
                } else {
                    None
                }
            },
            None => None,
        }
    } else {
        None
    }
}

/// The members from the one at `i` to the closing brace, which must end the
/// text but for whitespace.
pub open spec fn members_from(s: Seq<char>, i: int) -> Option<Seq<Span>>
    decreases s.len() - i,
{
    match member_at(s, i) {
        Some(m) => {
            let j = skip_ws(s, m.value_end);
            if j < s.len() && s[j] == ',' {
                let k = skip_ws(s, j + 1);
                if i < k <= s.len() {
                    match members_from(s, k) {
                        Some(rest) => Some(seq![m] + rest),
                        None => None,
                    }
                } else {
                    None
                }
            } else if j < s.len() && s[j] == '}' && skip_ws(s, j + 1) == s.len() {
                Some(seq![m])
            } else {
                None
            }
        },
        None => None,
    }
}

/// The members of the object that makes up the whole text.
pub open spec fn object_members(s: Seq<char>) -> Option<Seq<Span>> {
    let i = skip_ws(s, 0);
    if i < s.len() && s[i] == '{' {
        let j = skip_ws(s, i + 1);
        if j < s.len() && s[j] == '}' {
            if skip_ws(s, j + 1) == s.len() {
                Some(Seq::empty())
            } else {
                None
            }
        } else {
            members_from(s, j)
        }
    } else {
        None
    }
}

// ---------------------------------------------------------------------
// Scanning
// ---------------------------------------------------------------------

/// The characters of a text, read once.
fn chars_of(text: &str) -> (r: Vec<char>)
    ensures
        r@ == text@,
{
    let mut out: Vec<char> = Vec::new();
    for c in it: text.chars()
        invariant
            out.len() == it.index(),
            forall|k: int| 0 <= k < out.len() ==> out@[k] == it.seq()[k],
    {
        out.push(c);
    }
    assert(out@ =~= text@);
    out
}

fn skip_ws_at(cs: &Vec<char>, n: usize, i: usize) -> (r: usize)
    requires
        n == cs@.len(),
        i <= n,
    ensures
        r == skip_ws(cs@, i as int),
        i <= r <= n,
{
    let mut j = i;
    while j < n
        invariant
            n == cs@.len(),
            i <= j <= n,
            skip_ws(cs@, j as int) == skip_ws(cs@, i as int),
        decreases n - j,
    {
        let c = cs[j];
        if !(c == ' ' || c == '\t' || c == '\n' || c == '\r') {
            return j;
        }
        j = j + 1;
    }
    j
}

fn closing_quote_at(cs: &Vec<char>, n: usize, i: usize) -> (r: Option<usize>)
    requires
        n == cs@.len(),
        i <= n,
    ensures
        match r {
            Some(e) => closing_quote(cs@, i as int) == Some(e as int) && i <= e < n,
            None => closing_quote(cs@, i as int) is None,
        },
{
    let mut j = i;
    while j < n
        invariant
            n == cs@.len(),
            i <= j,
            closing_quote(cs@, j as int) == closing_quote(cs@, i as int),
        decreases n - j,
    {
        let c = cs[j];
        if c == '"' {
            return Some(j);
        } else if c == '\\' {
            if j + 1 < n {
                j = j + 2;
            } else {
                return None;
            }
        } else {
            j = j + 1;
        }
    }
    None
}

fn number_end_at(cs: &Vec<char>, n: usize, i: usize) -> (r: usize)
    requires
        n == cs@.len(),
        i <= n,
    ensures
        r == number_end(cs@, i as int),
        i <= r <= n,
{
    let mut j = i;
    while j < n
        invariant
            n == cs@.len(),
            i <= j <= n,
            number_end(cs@, j as int) == number_end(cs@, i as int),
        decreases n - j,
    {
        let c = cs[j];
        if !(('0' <= c && c <= '9') || c == '-' || c == '+' || c == '.' || c == 'e' || c == 'E') {
            return j;
        }
        j = j + 1;
    }
    j
}

/// A member's literals, as positions in the text.
#[derive(Clone, Copy)]
pub struct Member {
    pub key_start: usize,
    pub key_end: usize,
    pub value_start: usize,
    pub value_end: usize,
    pub quoted: bool,
}

impl View for Member {
    type V = Span;

    open spec fn view(&self) -> Span {
        Span {
            key_start: self.key_start as int,
            key_end: self.key_end as int,
            value_start: self.value_start as int,
            value_end: self.value_end as int,
            quoted: self.quoted,
        }
    }
}

pub open spec fn member_in(m: Member, n: int) -> bool {
    m.key_start < m.key_end <= m.value_start < m.value_end <= n
}

fn member_at_pos(cs: &Vec<char>, n: usize, i: usize) -> (r: Option<Member>)
    requires
        n == cs@.len(),
        i <= n,
    ensures
        match r {
            Some(m) => member_at(cs@, i as int) == Some(m@) && member_in(m, n as int)
                && m.key_start == i,
            None => member_at(cs@, i as int) is None,
        },
{
    if i >= n || cs[i] != '"' {
        return None;
    }
    let q = match closing_quote_at(cs, n, i + 1) {
        Some(q) => q,
        None => return None,
    };
    let c = skip_ws_at(cs, n, q + 1);
    if c >= n || cs[c] != ':' {
        return None;
    }
    let v = skip_ws_at(cs, n, c + 1);
    if v < n && cs[v] == '"' {
        match closing_quote_at(cs, n, v + 1) {
            Some(e) => Some(
                Member { key_start: i, key_end: q + 1, value_start: v, value_end: e + 1, quoted: true },
            ),
            None => None,
        }
    } else {
        let e = number_end_at(cs, n, v);
        if e > v {
            Some(Member { key_start: i, key_end: q + 1, value_start: v, value_end: e, quoted: false })
        } else {
            None
        }
    }
}

pub open spec fn spans(v: Seq<Member>) -> Seq<Span> {
    v.map_values(|m: Member| m@)
}

fn object_members_of(cs: &Vec<char>, n: usize) -> (r: Option<Vec<Member>>)
    requires
        n == cs@.len(),
    ensures
        match r {
            Some(v) => object_members(cs@) == Some(spans(v@)) && forall|k: int|
                0 <= k < v@.len() ==> member_in(#[trigger] v@[k], n as int),
            None => object_members(cs@) is None,
        },
{
    let s = Ghost(cs@);
    let i = skip_ws_at(cs, n, 0);
    if i >= n || cs[i] != '{' {
        return None;
    }
    let j = skip_ws_at(cs, n, i + 1);
    if j < n && cs[j] == '}' {
        if skip_ws_at(cs, n, j + 1) == n {
            let empty: Vec<Member> = Vec::new();
            assert(spans(empty@) =~= Seq::<Span>::empty());
            return Some(empty);
        }
        return None;
    }
    let mut acc: Vec<Member> = Vec::new();
    let mut p = j;
    loop
        invariant
            n == cs@.len(),
            s@ == cs@,
            j <= p <= n,
            object_members(s@) == members_from(s@, j as int),
            members_from(s@, j as int) == match members_from(s@, p as int) {
                Some(rest) => Some(spans(acc@) + rest),
                None => None,
            },
            forall|k: int| 0 <= k < acc@.len() ==> member_in(#[trigger] acc@[k], n as int),
        decreases n - p,
    {
        let m = match member_at_pos(cs, n, p) {
            Some(m) => m,
            None => return None,
        };
        let ghost before = acc@;
        let q = skip_ws_at(cs, n, m.value_end);
        if q < n && cs[q] == ',' {
            let k = skip_ws_at(cs, n, q + 1);
            acc.push(m);
            assert(spans(acc@) =~= spans(before) + seq![m@]);
            proof {
                match members_from(s@, k as int) {
                    Some(rest) => {
                        assert(spans(acc@) + rest =~= spans(before) + (seq![m@] + rest));
                    },
                    None => {},
                }
            }
            p = k;
        } else if q < n && cs[q] == '}' && skip_ws_at(cs, n, q + 1) == n {
            acc.push(m);
            assert(spans(acc@) =~= spans(before) + seq![m@]);
            return Some(acc);
        } else {
            return None;
        }
    }
}

// ---------------------------------------------------------------------
// Field rules
// ---------------------------------------------------------------------

/// The fields read so far.
pub ghost struct Fields {
    pub id: Option<u64>,
    pub sender: Option<Seq<char>>,
    pub content: Option<Seq<char>>,
    pub timestamp: Option<u64>,
}

pub open spec fn no_fields() -> Fields {
    Fields { id: None, sender: None, content: None, timestamp: None }
}

/// The key that a member's key literal denotes.
pub open spec fn key_of(s: Seq<char>, m: Span) -> Option<Seq<char>> {
    json_text(s.subrange(m.key_start, m.key_end))
}

pub open spec fn value_lit(s: Seq<char>, m: Span) -> Seq<char> {
    s.subrange(m.value_start, m.value_end)
}

/// Takes one member into the fields: its key must be one of the four, not
/// seen before, with a number for `id` and `timestamp` and a string for
/// `sender` and `content`.
pub open spec fn absorb(s: Seq<char>, f: Fields, m: Span) -> Option<Fields> {
    match key_of(s, m) {
        Some(k) => if k == id_key() {
            if f.id is None && !m.quoted {
                match json_unsigned(value_lit(s, m)) {
                    Some(v) => Some(Fields { id: Some(v), ..f }),
                    None => None,
                }
            } else {
                None
            }
        } else if k == sender_key() {
            if f.sender is None && m.quoted {
                match json_text(value_lit(s, m)) {
                    Some(t) => Some(Fields { sender: Some(t), ..f }),
                    None => None,
                }
            } else {
                None
            }
        } else if k == content_key() {
            if f.content is None && m.quoted {
                match json_text(value_lit(s, m)) {
                    Some(t) => Some(Fields { content: Some(t), ..f }),
                    None => None,
                }
            } else {
                None
            }
        } else if k == timestamp_key() {
            if f.timestamp is None && !m.quoted {
                match json_unsigned(value_lit(s, m)) {
                    Some(v) => Some(Fields { timestamp: Some(v), ..f }),
                    None => None,
                }
            } else {
                None
            }
        } else {
            None
        },
        None => None,
    }
}

/// The fields that a list of members gives, taken in order.
pub open spec fn gather(s: Seq<char>, ms: Seq<Span>) -> Option<Fields>
    decreases ms.len(),
{
    if ms.len() == 0 {
        Some(no_fields())
    } else {
        match gather(s, ms.drop_last()) {
            Some(f) => absorb(s, f, ms.last()),
            None => None,
        }
    }
}

/// The message that a text decodes to, if any: all four fields must be
/// there.
pub open spec fn decoded(s: Seq<char>) -> Option<MessageView> {
    match object_members(s) {
        Some(ms) => match gather(s, ms) {
            Some(f) => if f.id is Some && f.sender is Some && f.content is Some
                && f.timestamp is Some {
                Some(
                    MessageView {
                        id: f.id->0,
                        sender: f.sender->0,
                        content: f.content->0,
                        timestamp: f.timestamp->0,
                    },
                )
            } else {
                None
            },
            None => None,
        },
        None => None,
    }
}

/// How many of the fields are set.
pub open spec fn set_count(f: Fields) -> nat {
    (if f.id is Some { 1nat } else { 0nat }) + (if f.sender is Some { 1nat } else { 0nat }) + (
    if f.content is Some { 1nat } else { 0nat }) + (if f.timestamp is Some { 1nat } else { 0nat })
}

/// Each member sets one more field, so at most four members can succeed.
proof fn lemma_gather_counts(s: Seq<char>, ms: Seq<Span>)
    ensures
        gather(s, ms) matches Some(f) ==> set_count(f) == ms.len(),
    decreases ms.len(),
{
    if ms.len() > 0 {
        lemma_gather_counts(s, ms.drop_last());
    }
}

/// Once a prefix of the members fails, all of them fail.
proof fn lemma_gather_prefix_fails(s: Seq<char>, ms: Seq<Span>, j: int)
    requires
        0 <= j <= ms.len(),
    ensures
        gather(s, ms.take(j)) is None ==> gather(s, ms) is None,
    decreases ms.len() - j,
{
    if j < ms.len() {
        lemma_gather_prefix_fails(s, ms, j + 1);
        assert(ms.take(j + 1).drop_last() =~= ms.take(j));
    } else {
        assert(ms.take(j) =~= ms);
    }
}

// ---------------------------------------------------------------------
// The encoding is read back
// ---------------------------------------------------------------------

proof fn lemma_escape_step(s: Seq<char>, p: int, c: char)
    requires
        0 <= p,
        p + escape_char(c).len() < s.len(),
        s.subrange(p, p + escape_char(c).len()) == escape_char(c),
    ensures
        closing_quote(s, p) == closing_quote(s, p + escape_char(c).len()),
{
    let e = escape_char(c);
    assert forall|k: int| 0 <= k < e.len() implies s[p + k] == e[k] by {
        assert(s.subrange(p, p + e.len())[k] == s[p + k]);
    }
    if c == '"' || c == '\\' || c == '\u{8}' || c == '\u{c}' || c == '\n' || c == '\r' || c == '\t' {
        assert(s[p] == '\\');
    } else if (c as u32) < 0x20 {
        assert(s[p] == '\\');
        assert(closing_quote(s, p + 5) == closing_quote(s, p + 6));
        assert(closing_quote(s, p + 4) == closing_quote(s, p + 5));
        assert(closing_quote(s, p + 3) == closing_quote(s, p + 4));
        assert(closing_quote(s, p + 2) == closing_quote(s, p + 3));
    } else {
        assert(e == seq![c]);
        assert(s.subrange(p, p + e.len())[0] == s[p]);
    }
}

/// The body of a literal written for `x` ends at the quote that follows it.
proof fn lemma_closing_quote(s: Seq<char>, p: int, x: Seq<char>)
    requires
        0 <= p,
        p + escaped(x).len() < s.len(),
        s.subrange(p, p + escaped(x).len()) == escaped(x),
        s[p + escaped(x).len()] == '"',
    ensures
        closing_quote(s, p) == Some(p + escaped(x).len()),
    decreases x.len(),
{
    if x.len() > 0 {
        let e = escape_char(x[0]);
        let rest = escaped(x.drop_first());
        assert(escaped(x) == e + rest);
        assert(s.subrange(p + e.len(), p + e.len() + rest.len()) =~= rest) by {
            assert forall|k: int| 0 <= k < rest.len() implies s.subrange(
                p + e.len(),
                p + e.len() + rest.len(),
            )[k] == rest[k] by {
                assert(s.subrange(p, p + escaped(x).len())[e.len() + k] == escaped(x)[e.len() + k]);
            }
        }
        assert(s.subrange(p, p + e.len()) =~= e) by {
            assert forall|k: int| 0 <= k < e.len() implies s.subrange(p, p + e.len())[k] == e[k] by {
                assert(s.subrange(p, p + escaped(x).len())[k] == escaped(x)[k]);
            }
        }
        lemma_closing_quote(s, p + e.len(), x.drop_first());
        lemma_escape_step(s, p, x[0]);
    }
}

proof fn lemma_number_run(s: Seq<char>, p: int, d: Seq<char>)
    requires
        0 <= p,
        p + d.len() <= s.len(),
        s.subrange(p, p + d.len()) == d,
        forall|k: int| 0 <= k < d.len() ==> is_number_char(#[trigger] d[k]),
        p + d.len() == s.len() || !is_number_char(s[p + d.len()]),
    ensures
        number_end(s, p) == p + d.len(),
    decreases d.len(),
{
    if d.len() > 0 {
        assert(s.subrange(p, p + d.len())[0] == s[p]);
        assert(s.subrange(p + 1, p + d.len()) =~= d.drop_first()) by {
            assert forall|k: int| 0 <= k < d.len() - 1 implies s.subrange(p + 1, p + d.len())[k]
                == d.drop_first()[k] by {
                assert(s.subrange(p, p + d.len())[k + 1] == d[k + 1]);
            }
        }
        lemma_number_run(s, p + 1, d.drop_first());
    }
}

proof fn lemma_decimal_digits(n: nat)
    ensures
        decimal(n).len() >= 1,
        forall|k: int| 0 <= k < decimal(n).len() ==> '0' <= #[trigger] decimal(n)[k] <= '9',
    decreases n,
{
    if n >= 10 {
        lemma_decimal_digits(n / 10);
    }
}

/// Where a member written as `quoted(key) : value` lies.
pub open spec fn span_at(a: int, key: Seq<char>, value: Seq<char>, is_text: bool) -> Span {
    Span {
        key_start: a,
        key_end: a + quoted(key).len(),
        value_start: a + quoted(key).len() + 1,
        value_end: a + quoted(key).len() + 1 + value.len(),
        quoted: is_text,
    }
}

proof fn lemma_member(
    s: Seq<char>,
    pre: Seq<char>,
    key: Seq<char>,
    value: Seq<char>,
    post: Seq<char>,
    x: Seq<char>,
    is_text: bool,
)
    requires
        s == pre + member_text(key, value) + post,
        post.len() > 0,
        post[0] == ',' || post[0] == '}',
        is_text ==> value == quoted(x),
        !is_text ==> value.len() > 0 && forall|k: int|
            0 <= k < value.len() ==> '0' <= #[trigger] value[k] <= '9',
    ensures
        member_at(s, pre.len() as int) == Some(span_at(pre.len() as int, key, value, is_text)),
        s.subrange(
            span_at(pre.len() as int, key, value, is_text).key_start,
            span_at(pre.len() as int, key, value, is_text).key_end,
        ) == quoted(key),
        value_lit(s, span_at(pre.len() as int, key, value, is_text)) == value,
        s[pre.len() as int] == '"',
        s[span_at(pre.len() as int, key, value, is_text).value_end] == post[0],
        skip_ws(s, span_at(pre.len() as int, key, value, is_text).value_end) == span_at(
            pre.len() as int,
            key,
            value,
            is_text,
        ).value_end,
{
    let a = pre.len() as int;
    let qk = quoted(key);
    let ek = escaped(key);
    let c = a + qk.len();
    let v = c + 1;
    let e = v + value.len();
    assert(s.subrange(a, c) =~= qk);
    assert(s.subrange(v, e) =~= value);
    assert(s.subrange(a + 1, a + 1 + ek.len()) =~= ek);
    assert(s[a] == '"');
    assert(s[a + 1 + ek.len()] == '"');
    lemma_closing_quote(s, a + 1, key);
    assert(s[c] == ':');
    assert(skip_ws(s, c) == c);
    assert(s[v] == value[0]);
    assert(skip_ws(s, v) == v);
    assert(s[e] == post[0]);
    assert(skip_ws(s, e) == e);
    if is_text {
        let ex = escaped(x);
        assert(s.subrange(v + 1, v + 1 + ex.len()) =~= ex);
        assert(s[v + 1 + ex.len()] == '"');
        lemma_closing_quote(s, v + 1, x);
    } else {
        assert(s.subrange(v, v + value.len()) =~= value);
        lemma_number_run(s, v, value);
    }
}

/// The members of the encoding of `v`, in the order they are written.
pub open spec fn encoding_spans(v: MessageView) -> Seq<Span> {
    let m0 = member_text(id_key(), decimal(v.id as nat));
    let m1 = member_text(sender_key(), quoted(v.sender));
    let m2 = member_text(content_key(), quoted(v.content));
    let a0 = 1int;
    let a1 = a0 + m0.len() + 1;
    let a2 = a1 + m1.len() + 1;
    let a3 = a2 + m2.len() + 1;
    seq![
        span_at(a0, id_key(), decimal(v.id as nat), false),
        span_at(a1, sender_key(), quoted(v.sender), true),
        span_at(a2, content_key(), quoted(v.content), true),
        span_at(a3, timestamp_key(), decimal(v.timestamp as nat), false),
    ]
}

proof fn lemma_first_member(v: MessageView)
    ensures
        member_at(encoding(v), encoding_spans(v)[0].key_start) == Some(encoding_spans(v)[0]),
        encoding(v).subrange(encoding_spans(v)[0].key_start, encoding_spans(v)[0].key_end)
            == quoted(id_key()),
        value_lit(encoding(v), encoding_spans(v)[0]) == decimal(v.id as nat),
        encoding(v)[encoding_spans(v)[0].key_start] == '"',
        encoding(v)[encoding_spans(v)[0].value_end] == ',',
        skip_ws(encoding(v), encoding_spans(v)[0].value_end) == encoding_spans(v)[0].value_end,
        encoding_spans(v)[1].key_start == encoding_spans(v)[0].value_end + 1,
        encoding(v)[0] == '{',
        encoding_spans(v)[0].key_start == 1,
{
    reveal(encoding);
    let s = encoding(v);
    let d0 = decimal(v.id as nat);
    let d3 = decimal(v.timestamp as nat);
    let m0 = member_text(id_key(), d0);
    let m1 = member_text(sender_key(), quoted(v.sender));
    let m2 = member_text(content_key(), quoted(v.content));
    let m3 = member_text(timestamp_key(), d3);
    let c = seq![','];
    let close = seq!['}'];
    lemma_decimal_digits(v.id as nat);
    lemma_decimal_digits(v.timestamp as nat);
    let pre = seq!['{'];
    assert(s =~= pre + member_text(id_key(), d0) + (c + m1 + c + m2 + c + m3 + close));
    lemma_member(s, pre, id_key(), d0, c + m1 + c + m2 + c + m3 + close, d0, false);
}

proof fn lemma_second_member(v: MessageView)
    ensures
        member_at(encoding(v), encoding_spans(v)[1].key_start) == Some(encoding_spans(v)[1]),
        encoding(v).subrange(encoding_spans(v)[1].key_start, encoding_spans(v)[1].key_end)
            == quoted(sender_key()),
        value_lit(encoding(v), encoding_spans(v)[1]) == quoted(v.sender),
        encoding(v)[encoding_spans(v)[1].key_start] == '"',
        encoding(v)[encoding_spans(v)[1].value_end] == ',',
        skip_ws(encoding(v), encoding_spans(v)[1].value_end) == encoding_spans(v)[1].value_end,
        encoding_spans(v)[2].key_start == encoding_spans(v)[1].value_end + 1,
{
    reveal(encoding);
    let s = encoding(v);
    let d0 = decimal(v.id as nat);
    let d3 = decimal(v.timestamp as nat);
    let m0 = member_text(id_key(), d0);
    let m1 = member_text(sender_key(), quoted(v.sender));
    let m2 = member_text(content_key(), quoted(v.content));
    let m3 = member_text(timestamp_key(), d3);
    let c = seq![','];
    let close = seq!['}'];
    lemma_decimal_digits(v.id as nat);
    lemma_decimal_digits(v.timestamp as nat);
    let pre = seq!['{'] + m0 + c;
    assert(s =~= pre + member_text(sender_key(), quoted(v.sender)) + (c + m2 + c + m3 + close));
    lemma_member(s, pre, sender_key(), quoted(v.sender), c + m2 + c + m3 + close, v.sender, true);
}

proof fn lemma_third_member(v: MessageView)
    ensures
        member_at(encoding(v), encoding_spans(v)[2].key_start) == Some(encoding_spans(v)[2]),
        encoding(v).subrange(encoding_spans(v)[2].key_start, encoding_spans(v)[2].key_end)
            == quoted(content_key()),
        value_lit(encoding(v), encoding_spans(v)[2]) == quoted(v.content),
        encoding(v)[encoding_spans(v)[2].key_start] == '"',
        encoding(v)[encoding_spans(v)[2].value_end] == ',',
        skip_ws(encoding(v), encoding_spans(v)[2].value_end) == encoding_spans(v)[2].value_end,
        encoding_spans(v)[3].key_start == encoding_spans(v)[2].value_end + 1,
{
    reveal(encoding);
    let s = encoding(v);
    let d0 = decimal(v.id as nat);
    let d3 = decimal(v.timestamp as nat);
    let m0 = member_text(id_key(), d0);
    let m1 = member_text(sender_key(), quoted(v.sender));
    let m2 = member_text(content_key(), quoted(v.content));
    let m3 = member_text(timestamp_key(), d3);
    let c = seq![','];
    let close = seq!['}'];
    lemma_decimal_digits(v.id as nat);
    lemma_decimal_digits(v.timestamp as nat);
    let pre = seq!['{'] + m0 + c + m1 + c;
    assert(s =~= pre + member_text(content_key(), quoted(v.content)) + (c + m3 + close));
    lemma_member(s, pre, content_key(), quoted(v.content), c + m3 + close, v.content, true);
}

proof fn lemma_fourth_member(v: MessageView)
    ensures
        member_at(encoding(v), encoding_spans(v)[3].key_start) == Some(encoding_spans(v)[3]),
        encoding(v).subrange(encoding_spans(v)[3].key_start, encoding_spans(v)[3].key_end)
            == quoted(timestamp_key()),
        value_lit(encoding(v), encoding_spans(v)[3]) == decimal(v.timestamp as nat),
        encoding(v)[encoding_spans(v)[3].key_start] == '"',
        encoding(v)[encoding_spans(v)[3].value_end] == '}',
        skip_ws(encoding(v), encoding_spans(v)[3].value_end) == encoding_spans(v)[3].value_end,
        encoding(v).len() == encoding_spans(v)[3].value_end + 1,
{
    reveal(encoding);
    let s = encoding(v);
    let d0 = decimal(v.id as nat);
    let d3 = decimal(v.timestamp as nat);
    let m0 = member_text(id_key(), d0);
    let m1 = member_text(sender_key(), quoted(v.sender));
    let m2 = member_text(content_key(), quoted(v.content));
    let m3 = member_text(timestamp_key(), d3);
    let c = seq![','];
    let close = seq!['}'];
    lemma_decimal_digits(v.id as nat);
    lemma_decimal_digits(v.timestamp as nat);
    let pre = seq!['{'] + m0 + c + m1 + c + m2 + c;
    assert(s =~= pre + member_text(timestamp_key(), d3) + (close));
    lemma_member(s, pre, timestamp_key(), d3, close, d3, false);
}

/// Four members laid out one after another, the last one closing the object.
proof fn lemma_four_members(s: Seq<char>, sp: Seq<Span>)
    requires
        sp.len() == 4,
        s.len() > 0,
        s[0] == '{',
        sp[0].key_start == 1,
        forall|k: int| 0 <= k < 4 ==> member_at(s, (#[trigger] sp[k]).key_start) == Some(sp[k]),
        forall|k: int| 0 <= k < 4 ==> s[(#[trigger] sp[k]).key_start] == '"',
        forall|k: int| 0 <= k < 4 ==> (#[trigger] sp[k]).key_start < sp[k].value_end,
        forall|k: int| 0 <= k < 4 ==> skip_ws(s, (#[trigger] sp[k]).value_end) == sp[k].value_end,
        forall|k: int| 0 <= k < 3 ==> s[(#[trigger] sp[k]).value_end] == ',',
        forall|k: int| 0 <= k < 3 ==> (#[trigger] sp[k + 1]).key_start == sp[k].value_end + 1,
        s[sp[3].value_end] == '}',
        s.len() == sp[3].value_end + 1,
    ensures
        object_members(s) == Some(sp),
{
    let a = sp[0];
    let b = sp[1];
    let c = sp[2];
    let d = sp[3];
    assert(member_at(s, d.key_start) == Some(d));
    assert(skip_ws(s, d.value_end) == d.value_end);
    assert(skip_ws(s, d.value_end + 1) == s.len());
    assert(members_from(s, d.key_start) == Some(seq![d]));
    assert(member_at(s, c.key_start) == Some(c));
    assert(skip_ws(s, c.value_end) == c.value_end);
    assert(s[c.value_end] == ',');
    assert(d.key_start == c.value_end + 1);
    assert(skip_ws(s, c.value_end + 1) == d.key_start);
    assert(members_from(s, c.key_start) == Some(seq![c] + seq![d]));
    assert(member_at(s, b.key_start) == Some(b));
    assert(skip_ws(s, b.value_end) == b.value_end);
    assert(s[b.value_end] == ',');
    assert(c.key_start == b.value_end + 1);
    assert(skip_ws(s, b.value_end + 1) == c.key_start);
    assert(members_from(s, b.key_start) == Some(seq![b] + (seq![c] + seq![d])));
    assert(member_at(s, a.key_start) == Some(a));
    assert(skip_ws(s, a.value_end) == a.value_end);
    assert(s[a.value_end] == ',');
    assert(b.key_start == a.value_end + 1);
    assert(skip_ws(s, a.value_end + 1) == b.key_start);
    assert(members_from(s, a.key_start) == Some(seq![a] + (seq![b] + (seq![c] + seq![d]))));
    assert(seq![a] + (seq![b] + (seq![c] + seq![d])) =~= sp);
    assert(skip_ws(s, 0) == 0);
    assert(skip_ws(s, 1) == 1);
}

proof fn lemma_encoding_members(v: MessageView)
    ensures
        object_members(encoding(v)) == Some(encoding_spans(v)),
{
    lemma_first_member(v);
    lemma_second_member(v);
    lemma_third_member(v);
    lemma_fourth_member(v);
    let sp = encoding_spans(v);
    assert(sp.len() == 4);
    lemma_four_members(encoding(v), sp);
}

proof fn lemma_encoding_decodes(v: MessageView, readings: Seq<Reading>)
    requires
        object_members(encoding(v)) is Some,
        readings.len() == object_members(encoding(v))->0.len(),
        forall|k: int|
            0 <= k < readings.len() ==> reading_of(
                encoding(v),
                object_members(encoding(v))->0[k],
                #[trigger] readings[k],
            ),
    ensures
        decoded(encoding(v)) == Some(v),
{
    let s = encoding(v);
    let sp = encoding_spans(v);
    lemma_encoding_members(v);
    lemma_first_member(v);
    lemma_second_member(v);
    lemma_third_member(v);
    lemma_fourth_member(v);
    assert(reading_of(s, sp[0], readings[0]));
    assert(reading_of(s, sp[1], readings[1]));
    assert(reading_of(s, sp[2], readings[2]));
    assert(reading_of(s, sp[3], readings[3]));
    assert(key_of(s, sp[0]) == Some(id_key()));
    assert(key_of(s, sp[1]) == Some(sender_key()));
    assert(key_of(s, sp[2]) == Some(content_key()));
    assert(key_of(s, sp[3]) == Some(timestamp_key()));
    assert(json_unsigned(value_lit(s, sp[0])) == Some(v.id));
    assert(json_text(value_lit(s, sp[1])) == Some(v.sender));
    assert(json_text(value_lit(s, sp[2])) == Some(v.content));
    assert(json_unsigned(value_lit(s, sp[3])) == Some(v.timestamp));
    assert(id_key().len() != sender_key().len());
    assert(content_key().len() != timestamp_key().len());
    let q1 = seq![sp[0]];
    let q2 = q1.push(sp[1]);
    let q3 = q2.push(sp[2]);
    assert(q1.drop_last() =~= Seq::<Span>::empty());
    assert(q2.drop_last() =~= q1);
    assert(q3.drop_last() =~= q2);
    assert(sp.drop_last() =~= q3);
    let f1 = Fields { id: Some(v.id), sender: None, content: None, timestamp: None };
    let f2 = Fields { sender: Some(v.sender), ..f1 };
    let f3 = Fields { content: Some(v.content), ..f2 };
    let f4 = Fields { timestamp: Some(v.timestamp), ..f3 };
    assert(gather(s, Seq::<Span>::empty()) == Some(no_fields()));
    assert(q1.last() == sp[0]);
    assert(absorb(s, no_fields(), sp[0]) == Some(f1));
    assert(gather(s, q1) == Some(f1));
    assert(gather(s, q2) == Some(f2));
    assert(gather(s, q3) == Some(f3));
    assert(gather(s, sp) == Some(f4));
}

// ---------------------------------------------------------------------
// Decoding
// ---------------------------------------------------------------------

/// What serde_json read from one member's literals.
struct Reading {
    key: Option<String>,
    text: Option<String>,
    number: Option<u64>,
}

/// A reading agrees with the named results for the member's literals, and
/// carries what serde_json showed of literals that it wrote itself.
spec fn reading_of(s: Seq<char>, m: Span, r: Reading) -> bool {
    let k = s.subrange(m.key_start, m.key_end);
    let v = value_lit(s, m);
    &&& text_view(r.key) == json_text(k)
    &&& forall|x: Seq<char>| k == #[trigger] quoted(x) ==> json_text(k) == Some(x)
    &&& m.quoted ==> text_view(r.text) == json_text(v)
    &&& m.quoted ==> forall|x: Seq<char>| v == #[trigger] quoted(x) ==> json_text(v) == Some(x)
    &&& !m.quoted ==> r.number == json_unsigned(v)
    &&& !m.quoted ==> forall|n: u64| v == #[trigger] decimal(n as nat) ==> json_unsigned(v)
        == Some(n)
}

fn read_member(text: &str, m: Member) -> (r: Reading)
    requires
        member_in(m, text@.len() as int),
    ensures
        reading_of(text@, m@, r),
{
    let key = read_text(text.substring_char(m.key_start, m.key_end));
    let lit = text.substring_char(m.value_start, m.value_end);
    if m.quoted {
        Reading { key, text: read_text(lit), number: None }
    } else {
        Reading { key, text: None, number: read_unsigned(lit) }
    }
}

fn same_text(a: &String, b: &str) -> (r: bool)
    ensures
        r == (a@ == b@),
{
    let w = b.to_owned();
    a.eq(&w)
}

fn invalid(why: &str) -> (e: AppError)
    ensures
        e is InvalidInput,
{
    AppError::InvalidInput(why.to_owned())
}

/// The view of a decoding result.
pub open spec fn decoded_view(r: Result<Message, AppError>) -> Option<MessageView> {
    match r {
        Ok(m) => Some(m@),
        Err(_) => None,
    }
}

/// Decodes a message from its JSON form. Fails with `InvalidInput` exactly
/// when the text is not an object of string and number members that gives
/// each of the four fields once, with the right kind of value, and no other
/// key; the text that `encode_message` writes decodes to the message itself.
pub fn decode_message(text: &str) -> (r: Result<Message, AppError>)
    ensures
        decoded_view(r) == decoded(text@),
        r matches Err(e) ==> e is InvalidInput,
        forall|v: MessageView| text@ == #[trigger] encoding(v) ==> decoded_view(r) == Some(v),
{
    let cs = chars_of(text);
    let n = cs.len();
    let members = match object_members_of(&cs, n) {
        Some(ms) => ms,
        None => {
            proof {
                assert forall|v: MessageView| text@ == #[trigger] encoding(v) implies false by {
                    lemma_encoding_members(v);
                }
            }
            return Err(invalid("expected a JSON object of string and number members"));
        },
    };
    let ghost s = text@;
    let ghost ms = spans(members@);
    if members.len() > 4 {
        proof {
            lemma_gather_counts(s, ms);
            assert forall|v: MessageView| text@ == #[trigger] encoding(v) implies false by {
                lemma_encoding_members(v);
            }
        }
        return Err(invalid("more members than the four fields"));
    }
    let mut readings: Vec<Reading> = Vec::new();
    let mut i: usize = 0;
    while i < members.len()
        invariant
            s == text@,
            n == text@.len(),
            ms == spans(members@),
            object_members(s) == Some(ms),
            forall|k: int| 0 <= k < members@.len() ==> member_in(#[trigger] members@[k], n as int),
            i <= members.len(),
            readings.len() == i,
            forall|k: int| 0 <= k < i ==> reading_of(s, ms[k], #[trigger] readings@[k]),
        decreases members.len() - i,
    {
        let r = read_member(text, members[i]);
        readings.push(r);
        i = i + 1;
    }
    proof {
        assert forall|v: MessageView| text@ == #[trigger] encoding(v) implies decoded(s) == Some(v) by {
            lemma_encoding_decodes(v, readings@);
        }
    }
    let mut id: Option<u64> = None;
    let mut sender: Option<String> = None;
    let mut content: Option<String> = None;
    let mut timestamp: Option<u64> = None;
    let mut i: usize = 0;
    while i < members.len()
        invariant
            s == text@,
            ms == spans(members@),
            object_members(s) == Some(ms),
            i <= members.len(),
            readings.len() == members.len(),
            forall|k: int| 0 <= k < members.len() ==> reading_of(s, ms[k], #[trigger] readings@[k]),
            forall|v: MessageView| text@ == #[trigger] encoding(v) ==> decoded(s) == Some(v),
            gather(s, ms.take(i as int)) == Some(
                Fields {
                    id,
                    sender: text_view(sender),
                    content: text_view(content),
                    timestamp,
                },
            ),
        decreases members.len() - i,
    {
        proof {
            assert(ms.take(i + 1).drop_last() =~= ms.take(i as int));
            assert(ms.take(i + 1).last() == ms[i as int]);
            assert(reading_of(s, ms[i as int], readings@[i as int]));
        }
        proof {
            reveal_strlit("id");
            reveal_strlit("sender");
            reveal_strlit("content");
            reveal_strlit("timestamp");
            assert("id"@ =~= id_key());
            assert("sender"@ =~= sender_key());
            assert("content"@ =~= content_key());
            assert("timestamp"@ =~= timestamp_key());
            lemma_gather_prefix_fails(s, ms, i + 1);
        }
        let m = members[i];
        let rd = &readings[i];
        let key = match &rd.key {
            Some(k) => k,
            None => return Err(invalid("malformed key")),
        };
        if same_text(key, "id") {
            if id.is_some() || m.quoted {
                return Err(invalid("duplicate or non-numeric id"));
            }
            match rd.number {
                Some(v) => id = Some(v),
                None => return Err(invalid("id is not an unsigned 64-bit integer")),
            }
        } else if same_text(key, "sender") {
            if sender.is_some() || !m.quoted {
                return Err(invalid("duplicate or non-text sender"));
            }
            match &rd.text {
                Some(t) => sender = Some(t.clone()),
                None => return Err(invalid("malformed sender")),
            }
        } else if same_text(key, "content") {
            if content.is_some() || !m.quoted {
                return Err(invalid("duplicate or non-text content"));
            }
            match &rd.text {
                Some(t) => content = Some(t.clone()),
                None => return Err(invalid("malformed content")),
            }
        } else if same_text(key, "timestamp") {
            if timestamp.is_some() || m.quoted {
                return Err(invalid("duplicate or non-numeric timestamp"));
            }
            match rd.number {
                Some(v) => timestamp = Some(v),
                None => return Err(invalid("timestamp is not an unsigned 64-bit integer")),
            }
        } else {
            return Err(invalid("unknown field"));
        }
        i = i + 1;
    }
    assert(ms.take(members.len() as int) =~= ms);
    match (id, sender, content, timestamp) {
        (Some(id), Some(sender), Some(content), Some(timestamp)) => Ok(
            Message::new(id, sender.as_str(), content.as_str(), timestamp),
        ),
        _ => Err(invalid("missing field")),
    }
}

// ---------------------------------------------------------------------
// Laws
// ---------------------------------------------------------------------

/// Whether the field called `name` is still unset.
pub open spec fn unset(f: Fields, name: Seq<char>) -> bool {
    if name == id_key() {
        f.id is None
    } else if name == sender_key() {
        f.sender is None
    } else if name == content_key() {
        f.content is None
    } else {
        f.timestamp is None
    }
}

pub open spec fn is_field_name(name: Seq<char>) -> bool {
    name == id_key() || name == sender_key() || name == content_key() || name == timestamp_key()
}

proof fn lemma_gather_leaves_unset(s: Seq<char>, ms: Seq<Span>, name: Seq<char>)
    requires
        is_field_name(name),
        forall|k: int| 0 <= k < ms.len() ==> key_of(s, #[trigger] ms[k]) != Some(name),
    ensures
        gather(s, ms) matches Some(f) ==> unset(f, name),
    decreases ms.len(),
{
    if ms.len() > 0 {
        let init = ms.drop_last();
        assert forall|k: int| 0 <= k < init.len() implies key_of(s, #[trigger] init[k]) != Some(
            name,
        ) by {
            assert(init[k] == ms[k]);
        }
        lemma_gather_leaves_unset(s, init, name);
        assert(key_of(s, ms[ms.len() - 1]) != Some(name));
        assert(id_key().len() != sender_key().len());
        assert(content_key().len() != timestamp_key().len());
    }
}

/// A text whose object has no member for one of the four fields is rejected:
/// it never decodes to a message.
pub proof fn lemma_missing_field_rejected(s: Seq<char>, name: Seq<char>)
    requires
        is_field_name(name),
        object_members(s) matches Some(ms) ==> forall|k: int|
            0 <= k < ms.len() ==> key_of(s, #[trigger] ms[k]) != Some(name),
    ensures
        decoded(s) is None,
{
    if let Some(ms) = object_members(s) {
        lemma_gather_leaves_unset(s, ms, name);
    }
}

} // verus!
