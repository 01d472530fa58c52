//! One value of a JSON object or list, as a plain value.

use crate::text::{chars_of, opt_text, same, string_of, texts};
use std::collections::HashMap;
use vstd::prelude::*;
use vstd::string::*;

verus! {

/// What stands under a key or at a position of a JSON text.
#[derive(Debug)]
pub enum JsonField {
    /// The text is no JSON, or no object or list.
    NotJson,
    /// There is no such key or position.
    Missing,
    Null,
    Text(String),
    /// A list of texts.
    Texts(Vec<String>),
    /// Anything else.
    Other,
}

/// What a field is.
pub enum FieldView {
    NotJson,
    Missing,
    Null,
    Text(Seq<char>),
    Texts(Seq<Seq<char>>),
    Other,
}

impl View for JsonField {
    type V = FieldView;

    open spec fn view(&self) -> FieldView {
        match self {
            JsonField::NotJson => FieldView::NotJson,
            JsonField::Missing => FieldView::Missing,
            JsonField::Null => FieldView::Null,
            JsonField::Text(s) => FieldView::Text(s@),
            JsonField::Texts(v) => FieldView::Texts(texts(v@)),
            JsonField::Other => FieldView::Other,
        }
    }
}

/// What a value is, read by `serde_json`.
pub uninterp spec fn json_value(text: Seq<char>) -> FieldView;

/// `serde_json::from_str` into a `serde_json::Value`: a function of the text alone. The JSON
/// grammar is not spelled out.
#[verifier::external_body]
fn read_value(text: &str) -> (r: JsonField)
    ensures
        r@ == json_value(text@),
{
    match serde_json::from_str::<serde_json::Value>(text) {
        Err(_) => JsonField::NotJson,
        Ok(serde_json::Value::Null) => JsonField::Null,
        Ok(serde_json::Value::String(s)) => JsonField::Text(s),
        Ok(serde_json::Value::Array(a)) => match a.iter().map(|x| x.as_str().map(|s| s.to_string())).collect::<Option<Vec<String>>>() {
            Some(t) => JsonField::Texts(t),
            None => JsonField::Other,
        },
        Ok(_) => JsonField::Other,
    }
}

/// The text of a value in a JSON text: none where the text does not hold values in that
/// way, and none inside where it holds no such value.
pub open spec fn raw_view(r: Option<Option<String>>) -> Option<Option<Seq<char>>> {
    match r {
        Some(v) => Some(opt_text(v)),
        None => None,
    }
}

/// The text of the value that `serde_json` finds last under a key of an object.
pub uninterp spec fn raw_field(text: Seq<char>, key: Seq<char>) -> Option<Option<Seq<char>>>;

/// `serde_json::from_str` into a map of `serde_json::value::RawValue`, which is none for a
/// text that is no object, and the text of the value under the key: a function of the text
/// and the key alone. The values are not looked into.
#[verifier::external_body]
fn read_raw_field(text: &str, key: &str) -> (r: Option<Option<String>>)
    ensures
        raw_view(r) == raw_field(text@, key@),
{
    match serde_json::from_str::<HashMap<String, Box<serde_json::value::RawValue>>>(text) {
        Err(_) => None,
        Ok(m) => Some(m.get(key).map(|v| v.get().to_string())),
    }
}

/// The text of the value that `serde_json` finds at a position of a list.
pub uninterp spec fn raw_item(text: Seq<char>, position: usize) -> Option<Option<Seq<char>>>;

/// `serde_json::from_str` into a list of `serde_json::value::RawValue`, which is none for a
/// text that is no list, and the text of the value at the position: a function of the text
/// and the position alone. The values are not looked into.
#[verifier::external_body]
fn read_raw_item(text: &str, position: usize) -> (r: Option<Option<String>>)
    ensures
        raw_view(r) == raw_item(text@, position),
{
    match serde_json::from_str::<Vec<Box<serde_json::value::RawValue>>>(text) {
        Err(_) => None,
        Ok(a) => Some(a.get(position).map(|v| v.get().to_string())),
    }
}

/// The value of which that is the text.
pub open spec fn value_in(raw: Option<Option<Seq<char>>>) -> FieldView {
    match raw {
        None => FieldView::NotJson,
        Some(None) => FieldView::Missing,
        Some(Some(s)) => json_value(s),
    }
}

fn read_raw(raw: Option<Option<String>>) -> (r: JsonField)
    ensures
        r@ == value_in(raw_view(raw)),
{
    match raw {
        None => JsonField::NotJson,
        Some(None) => JsonField::Missing,
        Some(Some(s)) => read_value(s.as_str()),
    }
}

/// What stands under a key of an object.
pub open spec fn json_field(text: Seq<char>, key: Seq<char>) -> FieldView {
    value_in(raw_field(text, key))
}

/// What stands at a position of a list.
pub open spec fn json_item(text: Seq<char>, position: usize) -> FieldView {
    value_in(raw_item(text, position))
}

/// What stands at a position of a list.
pub(crate) fn read_item(text: &str, position: usize) -> (r: JsonField)
    ensures
        r@ == json_item(text@, position),
{
    read_raw(read_raw_item(text, position))
}

/// How far a JSON text was read for the keys of its outermost object.
pub struct KeyScan {
    /// How many objects and lists are open.
    pub depth: int,
    /// Whether the outermost of them is an object.
    pub object: bool,
    /// Whether the next text is a key of it.
    pub key_next: bool,
    pub quoted: bool,
    /// Whether the last character was a backslash that takes the next with it.
    pub escaped: bool,
    /// The latest text, with its quotes.
    pub token: Seq<char>,
    /// The keys, as they are written.
    pub keys: Seq<Seq<char>>,
}

/// One more character.
pub open spec fn scan_char(s: KeyScan, c: char) -> KeyScan {
    if s.quoted {
        let token = s.token.push(c);
        if s.escaped || (c != '\\' && c != '"') {
            KeyScan { escaped: false, token, ..s }
        } else if c == '\\' {
            KeyScan { escaped: true, token, ..s }
        } else {
            KeyScan {
                quoted: false,
                key_next: false,
                token,
                keys: if s.key_next && s.depth == 1 {
                    s.keys.push(token)
                } else {
                    s.keys
                },
                ..s
            }
        }
    } else if c == '"' {
        KeyScan { quoted: true, token: seq!['"'], ..s }
    } else if c == '{' || c == '[' {
        if s.depth == 0 {
            KeyScan { depth: 1, object: c == '{', key_next: c == '{', ..s }
        } else {
            KeyScan { depth: s.depth + 1, ..s }
        }
    } else if c == '}' || c == ']' {
        KeyScan { depth: s.depth - 1, ..s }
    } else if c == ',' && s.depth == 1 && s.object {
        KeyScan { key_next: true, ..s }
    } else {
        s
    }
}

/// A JSON text read for the keys of its outermost object.
pub open spec fn scanned(text: Seq<char>) -> KeyScan
    decreases text.len(),
{
    if text.len() == 0 {
        KeyScan {
            depth: 0,
            object: false,
            key_next: false,
            quoted: false,
            escaped: false,
            token: Seq::empty(),
            keys: Seq::empty(),
        }
    } else {
        scan_char(scanned(text.drop_last()), text.last())
    }
}

/// Whether a text in quotes stands for the key, once `serde_json` has read it.
pub open spec fn stands_for(token: Seq<char>, key: Seq<char>) -> bool {
    json_value(token) == FieldView::Text(key)
}

/// How many of the texts in quotes stand for the key.
pub open spec fn times_named(tokens: Seq<Seq<char>>, key: Seq<char>) -> nat
    decreases tokens.len(),
{
    if tokens.len() == 0 {
        0
    } else {
        times_named(tokens.drop_last(), key) + (if stands_for(tokens.last(), key) {
            1nat
        } else {
            0
        })
    }
}

/// What stands under a key that an object may hold only once: nothing of use where it
/// holds the key twice.
pub open spec fn single_field(text: Seq<char>, key: Seq<char>) -> FieldView {
    if times_named(scanned(text).keys, key) > 1 {
        FieldView::Other
    } else {
        json_field(text, key)
    }
}

/// The keys of the outermost object of a JSON text, as they are written, with their quotes.
pub fn top_keys(text: &str) -> (out: Vec<String>)
    ensures
        texts(out@) == scanned(text@).keys,
{
    let cs = chars_of(text);
    let mut depth: i128 = 0;
    let mut object = false;
    let mut key_next = false;
    let mut quoted = false;
    let mut escaped = false;
    let mut token: Vec<char> = Vec::new();
    let mut out: Vec<String> = Vec::new();
    let mut i: usize = 0;
    proof {
        assert(cs@.take(0) =~= Seq::<char>::empty());
        assert(texts(out@) =~= Seq::<Seq<char>>::empty());
        assert(token@ =~= Seq::<char>::empty());
    }
    while i < cs.len()
        invariant
            i <= cs@.len(),
            -(i as int) <= depth <= i,
            scanned(cs@.take(i as int)) == (KeyScan {
                depth: depth as int,
                object,
                key_next,
                quoted,
                escaped,
                token: token@,
                keys: texts(out@),
            }),
        decreases cs@.len() - i,
    {
        let c: char = cs[i];
        let ghost keys = texts(out@);
        proof {
            assert(cs@.take(i + 1).drop_last() =~= cs@.take(i as int));
            assert(cs@.take(i + 1).last() == c);
        }
        if quoted {
            token.push(c);
            if escaped || (c != '\\' && c != '"') {
                escaped = false;
            } else if c == '\\' {
                escaped = true;
            } else {
                if key_next && depth == 1 {
                    out.push(string_of(token.as_slice()));
                    assert(texts(out@) =~= keys.push(token@));
                }
                quoted = false;
                key_next = false;
            }
        } else if c == '"' {
            quoted = true;
            token = vec!['"'];
            assert(token@ =~= seq!['"']);
        } else if c == '{' || c == '[' {
            if depth == 0 {
                object = c == '{';
                key_next = c == '{';
            }
            depth = depth + 1;
        } else if c == '}' || c == ']' {
            depth = depth - 1;
        } else if c == ',' && depth == 1 && object {
            key_next = true;
        }
        i += 1;
    }
    assert(cs@.take(i as int) =~= cs@);
    out
}

fn is_named(token: &str, key: &str) -> (r: bool)
    ensures
        r == stands_for(token@, key@),
{
    match read_value(token) {
        JsonField::Text(s) => same(s.as_str(), key),
        _ => false,
    }
}

/// What stands under a key that an object may hold only once.
pub(crate) fn read_single(text: &str, key: &str) -> (r: JsonField)
    ensures
        r@ == single_field(text@, key@),
{
    let keys = top_keys(text);
    let ghost all = texts(keys@);
    let mut n: usize = 0;
    let mut i: usize = 0;
    assert(all.take(0) =~= Seq::<Seq<char>>::empty());
    while i < keys.len()
        invariant
            i <= keys@.len(),
            n <= i,
            all == texts(keys@),
            n == times_named(all.take(i as int), key@),
        decreases keys@.len() - i,
    {
        proof {
            assert(all.take(i + 1).drop_last() =~= all.take(i as int));
            assert(all.take(i + 1).last() == keys@[i as int]@);
        }
        if is_named(keys[i].as_str(), key) {
            n += 1;
        }
        i += 1;
    }
    assert(all.take(i as int) =~= all);
    if n > 1 {
        JsonField::Other
    } else {
        read_raw(read_raw_field(text, key))
    }
}

} // verus!
