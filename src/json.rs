//! The encoded form of a message: a JSON object holding the four fields
//! `id`, `sender`, `content` and `timestamp`. String and number literals are
//! written and read by serde_json; this module states what they are and
//! writes the object around them. Reading an object back is in `decode`.

use crate::message::{AppError, Message, MessageView};
use vstd::prelude::*;
use vstd::string::*;

verus! {

// ---------------------------------------------------------------------
// Literals
// ---------------------------------------------------------------------

/// The character for a decimal digit.
pub open spec fn digit(d: nat) -> char {
    if d == 0 { '0' }
    else if d == 1 { '1' }
    else if d == 2 { '2' }
    else if d == 3 { '3' }
    else if d == 4 { '4' }
    else if d == 5 { '5' }
    else if d == 6 { '6' }
    else if d == 7 { '7' }
    else if d == 8 { '8' }
    else { '9' }
}

/// The decimal digits of `n`, without sign or leading zeros.
pub open spec fn decimal(n: nat) -> Seq<char>
    decreases n,
{
    if n < 10 {
        seq![digit(n)]
    } else {
        decimal(n / 10) + seq![digit(n % 10)]
    }
}

/// A lower-case hexadecimal digit.
pub open spec fn hex_digit(d: nat) -> char {
    if d < 10 { digit(d) }
    else if d == 10 { 'a' }
    else if d == 11 { 'b' }
    else if d == 12 { 'c' }
    else if d == 13 { 'd' }
    else if d == 14 { 'e' }
    else { 'f' }
}

/// How one character is written inside a JSON string literal: quote and
/// backslash escaped, the usual short escapes for control characters, the
/// other control characters as `\u00XX`, everything else as it is.
pub open spec fn escape_char(c: char) -> Seq<char> {
    if c == '"' { seq!['\\', '"'] }
    else if c == '\\' { seq!['\\', '\\'] }
    else if c == '\u{8}' { seq!['\\', 'b'] }
    else if c == '\u{c}' { seq!['\\', 'f'] }
    else if c == '\n' { seq!['\\', 'n'] }
    else if c == '\r' { seq!['\\', 'r'] }
    else if c == '\t' { seq!['\\', 't'] }
    else if (c as u32) < 0x20 {
        seq!['\\', 'u', '0', '0', hex_digit((c as u32 / 16) as nat), hex_digit((c as u32 % 16) as nat)]
    } else { seq![c] }
}

/// The escaped body of a JSON string literal for `s`.
pub open spec fn escaped(s: Seq<char>) -> Seq<char>
    decreases s.len(),
{
    if s.len() == 0 {
        seq![]
    } else {
        escape_char(s[0]) + escaped(s.drop_first())
    }
}

/// The JSON string literal for `s`, quotes included.
pub open spec fn quoted(s: Seq<char>) -> Seq<char> {
    seq!['"'] + escaped(s) + seq!['"']
}

/// What serde_json reads from a JSON string literal: the text it denotes,
/// or nothing when the literal is malformed.
pub uninterp spec fn json_text(lit: Seq<char>) -> Option<Seq<char>>;

/// The view of an optional string.
pub open spec fn text_view(o: Option<String>) -> Option<Seq<char>> {
    match o {
        Some(t) => Some(t@),
        None => None,
    }
}

/// What serde_json reads from a number literal as a `u64`.
pub uninterp spec fn json_unsigned(lit: Seq<char>) -> Option<u64>;

/// Relies on serde_json::to_string for a `str`: it writes `"`, then each
/// character escaped by its ESCAPE table, then `"`. Serializing a string into
/// a `Vec` does not fail.
#[verifier::external_body]
fn quote_text(s: &str) -> (r: String)
    ensures
        r@ == quoted(s@),
{
    match serde_json::to_string(s) {
        Ok(t) => t,
        Err(_) => String::new(),
    }
}

/// Relies on serde_json::to_string for a `u64`: its decimal digits.
#[verifier::external_body]
pub(crate) fn unsigned_text(n: u64) -> (r: String)
    ensures
        r@ == decimal(n as nat),
{
    match serde_json::to_string(&n) {
        Ok(t) => t,
        Err(_) => String::new(),
    }
}

/// Relies on serde_json::from_str::<String>: the text that a JSON string
/// literal denotes, and that it reads back what serde_json::to_string wrote.
#[verifier::external_body]
pub(crate) fn read_text(lit: &str) -> (r: Option<String>)
    ensures
        text_view(r) == json_text(lit@),
        forall|s: Seq<char>| lit@ == #[trigger] quoted(s) ==> text_view(r) == Some(s),
{
    serde_json::from_str::<String>(lit).ok()
}

/// Relies on serde_json::from_str::<u64>: the value of a number literal, and
/// that it reads back the digits that serde_json::to_string wrote.
#[verifier::external_body]
pub(crate) fn read_unsigned(lit: &str) -> (r: Option<u64>)
    ensures
        r == json_unsigned(lit@),
        forall|n: u64| lit@ == #[trigger] decimal(n as nat) ==> r == Some(n),
{
    serde_json::from_str::<u64>(lit).ok()
}

// ---------------------------------------------------------------------
// Encoding
// ---------------------------------------------------------------------

pub open spec fn id_key() -> Seq<char> {
    seq!['i', 'd']
}

pub open spec fn sender_key() -> Seq<char> {
    seq!['s', 'e', 'n', 'd', 'e', 'r']
}

pub open spec fn content_key() -> Seq<char> {
    seq!['c', 'o', 'n', 't', 'e', 'n', 't']
}

pub open spec fn timestamp_key() -> Seq<char> {
    seq!['t', 'i', 'm', 'e', 's', 't', 'a', 'm', 'p']
}

/// One `"key":value` member.
pub open spec fn member_text(key: Seq<char>, value: Seq<char>) -> Seq<char> {
    quoted(key) + seq![':'] + value
}

/// The encoding of a message: its four fields in a fixed order, no spaces.
#[verifier::opaque]
pub open spec fn encoding(m: MessageView) -> Seq<char> {
    seq!['{'] + member_text(id_key(), decimal(m.id as nat)) + seq![','] + member_text(
        sender_key(),
        quoted(m.sender),
    ) + seq![','] + member_text(content_key(), quoted(m.content)) + seq![','] + member_text(
        timestamp_key(),
        decimal(m.timestamp as nat),
    ) + seq!['}']
}

pub open spec fn plain(c: char) -> bool {
    c != '"' && c != '\\' && (c as u32) >= 0x20
}

proof fn lemma_plain_escaped(x: Seq<char>)
    requires
        forall|k: int| 0 <= k < x.len() ==> plain(#[trigger] x[k]),
    ensures
        escaped(x) == x,
    decreases x.len(),
{
    if x.len() > 0 {
        lemma_plain_escaped(x.drop_first());
        assert(plain(x[0]));
        assert(escaped(x) =~= x);
    }
}

proof fn lemma_keys_quoted()
    ensures
        quoted(id_key()) == seq!['"', 'i', 'd', '"'],
        quoted(sender_key()) == seq!['"', 's', 'e', 'n', 'd', 'e', 'r', '"'],
        quoted(content_key()) == seq!['"', 'c', 'o', 'n', 't', 'e', 'n', 't', '"'],
        quoted(timestamp_key()) == seq!['"', 't', 'i', 'm', 'e', 's', 't', 'a', 'm', 'p', '"'],
{
    lemma_plain_escaped(id_key());
    lemma_plain_escaped(sender_key());
    lemma_plain_escaped(content_key());
    lemma_plain_escaped(timestamp_key());
    assert(quoted(id_key()) =~= seq!['"', 'i', 'd', '"']);
    assert(quoted(sender_key()) =~= seq!['"', 's', 'e', 'n', 'd', 'e', 'r', '"']);
    assert(quoted(content_key()) =~= seq!['"', 'c', 'o', 'n', 't', 'e', 'n', 't', '"']);
    assert(quoted(timestamp_key()) =~= seq!['"', 't', 'i', 'm', 'e', 's', 't', 'a', 'm', 'p', '"']);
}

/// Encodes a message as a JSON object with its four fields.
pub fn encode_message(m: &Message) -> (r: String)
    ensures
        r@ == encoding(m@),
{
    proof {
        lemma_keys_quoted();
        reveal_strlit("{\"id\":");
        reveal_strlit(",\"sender\":");
        reveal_strlit(",\"content\":");
        reveal_strlit(",\"timestamp\":");
        reveal_strlit("}");
    }
    let mut out = "{\"id\":".to_owned();
    let id = unsigned_text(m.id());
    out.append(id.as_str());
    out.append(",\"sender\":");
    let sender = quote_text(m.sender());
    out.append(sender.as_str());
    out.append(",\"content\":");
    let content = quote_text(m.content());
    out.append(content.as_str());
    out.append(",\"timestamp\":");
    let timestamp = unsigned_text(m.timestamp());
    out.append(timestamp.as_str());
    out.append("}");
    reveal(encoding);
    assert(out@ =~= encoding(m@));
    out
}

} // verus!
