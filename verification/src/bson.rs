//! Documents of the database, and Lua tables as documents.
use vstd::prelude::*;
use vstd::string::*;
use vstd::utf8::*;

use crate::bson_laws::law_documents_of_tables_convert;
use crate::laux::{lua_array_size, strict_len, LuaStack};
use crate::number::{integer64, signed64};
use crate::text::{decimal, from_utf8, hex_bytes, i64_text, same_text, utf8_error_text};
use crate::value::{
    above_key, above_table, copy_bytes, kind_name, kind_of, lemma_list_push, listed, nothing,
    view_list, LuaValue, Tab, TableValue, Val,
};

verus! {

/// A value of a document. A float is its bit pattern, a date its milliseconds
/// since the epoch; `Other` stands for the kinds that have no Lua form, by the
/// text they are reported with.
#[derive(Debug, PartialEq)]
pub enum Bson {
    Double(u64),
    String(String),
    Array(Vec<Bson>),
    Document(Document),
    Boolean(bool),
    Null,
    Int32(i32),
    Int64(i64),
    Binary(Vec<u8>),
    ObjectId([u8; 12]),
    DateTime(i64),
    Timestamp { time: u32, increment: u32 },
    Decimal128([u8; 16]),
    Other(String),
}

/// Values under keys, in order; no key occurs twice.
#[derive(Debug, PartialEq)]
pub struct Document {
    pub entries: Vec<(String, Bson)>,
}

/// Model of [`Bson`]; a document is the sequence of its entries.
pub enum Item {
    Double(u64),
    String(Seq<char>),
    Array(Seq<Item>),
    Document(Seq<(Seq<char>, Item)>),
    Boolean(bool),
    Null,
    Int32(i32),
    Int64(i64),
    Binary(Seq<u8>),
    ObjectId(Seq<u8>),
    DateTime(i64),
    Timestamp(u32, u32),
    Decimal128(Seq<u8>),
    Other(Seq<char>),
}

pub open spec fn view_bson(b: Bson) -> Item
    decreases b,
{
    match b {
        Bson::Double(x) => Item::Double(x),
        Bson::String(s) => Item::String(s@),
        Bson::Array(v) => Item::Array(view_items(v)),
        Bson::Document(d) => Item::Document(view_document(d)),
        Bson::Boolean(x) => Item::Boolean(x),
        Bson::Null => Item::Null,
        Bson::Int32(x) => Item::Int32(x),
        Bson::Int64(x) => Item::Int64(x),
        Bson::Binary(v) => Item::Binary(v@),
        Bson::ObjectId(a) => Item::ObjectId(a@),
        Bson::DateTime(x) => Item::DateTime(x),
        Bson::Timestamp { time, increment } => Item::Timestamp(time, increment),
        Bson::Decimal128(a) => Item::Decimal128(a@),
        Bson::Other(s) => Item::Other(s@),
    }
}

pub open spec fn view_items(v: Vec<Bson>) -> Seq<Item>
    decreases v,
{
    Seq::new(
        v@.len(),
        |i: int|
            if 0 <= i < v@.len() {
                view_bson(v@[i])
            } else {
                Item::Null
            },
    )
}

pub open spec fn view_document(d: Document) -> Seq<(Seq<char>, Item)>
    decreases d,
{
    view_fields(d.entries)
}

pub open spec fn view_fields(es: Vec<(String, Bson)>) -> Seq<(Seq<char>, Item)>
    decreases es,
{
    Seq::new(
        es@.len(),
        |i: int|
            if 0 <= i < es@.len() {
                (es@[i].0@, view_bson(es@[i].1))
            } else {
                (Seq::empty(), Item::Null)
            },
    )
}

impl View for Bson {
    type V = Item;

    open spec fn view(&self) -> Item {
        view_bson(*self)
    }
}

impl View for Document {
    type V = Seq<(Seq<char>, Item)>;

    open spec fn view(&self) -> Seq<(Seq<char>, Item)> {
        view_document(*self)
    }
}

/// The place of a key, or -1.
pub open spec fn key_place(d: Seq<(Seq<char>, Item)>, key: Seq<char>) -> int
    decreases d.len(),
{
    if d.len() == 0 {
        -1
    } else if d.last().0 == key {
        d.len() - 1
    } else {
        key_place(d.drop_last(), key)
    }
}

/// A document with a key set. A key that is there keeps its place.
pub open spec fn with_key(d: Seq<(Seq<char>, Item)>, key: Seq<char>, v: Item) -> Seq<
    (Seq<char>, Item),
> {
    let j = key_place(d, key);
    if j >= 0 {
        d.update(j, (key, v))
    } else {
        d.push((key, v))
    }
}

/// No key occurs twice.
pub open spec fn distinct(d: Seq<(Seq<char>, Item)>) -> bool {
    forall|i: int, j: int|
        0 <= i < j < d.len() ==> (#[trigger] d[i]).0 != (#[trigger] d[j]).0
}

/// `key_place` names an entry with the key, or says that there is none.
pub proof fn lemma_key_place(d: Seq<(Seq<char>, Item)>, key: Seq<char>)
    ensures
        -1 <= key_place(d, key) < d.len(),
        key_place(d, key) >= 0 ==> d[key_place(d, key)].0 == key,
        forall|i: int| key_place(d, key) < i < d.len() ==> (#[trigger] d[i]).0 != key,
    decreases d.len(),
{
    if d.len() > 0 && d.last().0 != key {
        let front = d.drop_last();
        lemma_key_place(front, key);
        assert forall|i: int| key_place(front, key) < i < d.len() implies (
        #[trigger] d[i]).0 != key by {
            if i < front.len() {
                assert(front[i] == d[i]);
            }
        }
    }
}

/// Setting a key keeps keys distinct, makes the value the one found under the
/// key, and leaves what is found under every other key.
pub proof fn law_insert_then_get(
    d: Seq<(Seq<char>, Item)>,
    key: Seq<char>,
    v: Item,
    other: Seq<char>,
)
    requires
        distinct(d),
    ensures
        distinct(with_key(d, key, v)),
        key_place(with_key(d, key, v), key) >= 0,
        with_key(d, key, v)[key_place(with_key(d, key, v), key)].1 == v,
        other != key ==> {
            &&& (key_place(with_key(d, key, v), other) >= 0) == (key_place(d, other) >= 0)
            &&& key_place(d, other) >= 0 ==> with_key(d, key, v)[key_place(
                with_key(d, key, v),
                other,
            )].1 == d[key_place(d, other)].1
        },
{
    let e = with_key(d, key, v);
    lemma_key_place(d, key);
    lemma_key_place(d, other);
    lemma_key_place(e, key);
    lemma_key_place(e, other);
    let j = key_place(d, key);
    assert forall|x: int, y: int| 0 <= x < y < e.len() implies (#[trigger] e[x]).0 != (
    #[trigger] e[y]).0 by {
        if y < d.len() {
            assert(d[x].0 != d[y].0);
        } else {
            assert(d[x].0 != key);
        }
    }
    if j >= 0 {
        assert(e[j] == (key, v));
        let k = key_place(e, key);
        if k >= 0 && k != j {
            assert(e[k].0 != e[j].0);
        }
    } else {
        assert(e[d.len() as int] == (key, v));
    }
    if other != key {
        let a = key_place(d, other);
        let b = key_place(e, other);
        if a >= 0 {
            assert(e[a].0 == other);
            if b >= 0 && b != a {
                assert(e[a].0 != e[b].0);
            }
        }
        if b >= 0 {
            assert(b < d.len());
            assert(d[b].0 == other);
        }
    }
}

impl Document {
    /// An empty document.
    pub fn new() -> (r: Document)
        ensures
            r@ == Seq::<(Seq<char>, Item)>::empty(),
    {
        let r = Document { entries: Vec::new() };
        assert(r@ =~= Seq::empty());
        r
    }

    /// The number of entries.
    pub fn len(&self) -> (r: usize)
        ensures
            r == self@.len(),
    {
        self.entries.len()
    }

    /// The place of a key.
    fn position(&self, key: &str) -> (r: Option<usize>)
        ensures
            match r {
                Some(i) => i == key_place(self@, key@) && i < self@.len(),
                None => key_place(self@, key@) < 0,
            },
    {
        let ghost d = self@;
        let mut i: usize = self.entries.len();
        assert(d.take(d.len() as int) =~= d);
        while i > 0
            invariant
                d == self@,
                i <= d.len(),
                key_place(d, key@) == key_place(d.take(i as int), key@),
            decreases i,
        {
            i = i - 1;
            assert(d.take(i + 1).drop_last() =~= d.take(i as int));
            assert(d.take(i + 1).last().0 == self.entries@[i as int].0@);
            if same_text(self.entries[i].0.as_str(), key) {
                return Some(i);
            }
        }
        None
    }

    /// The value under a key.
    pub fn get(&self, key: &str) -> (r: Option<&Bson>)
        ensures
            match r {
                Some(v) => key_place(self@, key@) >= 0 && v@ == self@[key_place(self@, key@)].1,
                None => key_place(self@, key@) < 0,
            },
    {
        match self.position(key) {
            Some(i) => Some(&self.entries[i].1),
            None => None,
        }
    }

    /// Sets a key. A key that is there keeps its place.
    pub fn insert(&mut self, key: String, value: Bson)
        ensures
            final(self)@ == with_key(old(self)@, key@, value@),
    {
        match self.position(key.as_str()) {
            Some(i) => {
                self.entries.set(i, (key, value));
            },
            None => {
                self.entries.push((key, value));
            },
        }
        assert(self@ =~= with_key(old(self)@, key@, value@));
    }
}

/// The value of a hexadecimal digit of either case, or -1.
pub open spec fn hex_value(c: char) -> int {
    if '0' <= c <= '9' {
        c as int - '0' as int
    } else if 'a' <= c <= 'f' {
        c as int - 'a' as int + 10
    } else if 'A' <= c <= 'F' {
        c as int - 'A' as int + 10
    } else {
        -1
    }
}

/// Whether a text is an object id: 24 hexadecimal digits.
pub open spec fn is_object_id(s: Seq<char>) -> bool {
    s.len() == 24 && forall|i: int| 0 <= i < 24 ==> hex_value(#[trigger] s[i]) >= 0
}

/// The bytes of an object id.
pub open spec fn object_id_of(s: Seq<char>) -> Seq<u8> {
    Seq::new(12, |i: int| (16 * hex_value(s[2 * i]) + hex_value(s[2 * i + 1])) as u8)
}

/// How many bytes come before the first that is no hexadecimal digit.
pub open spec fn leading_digits(b: Seq<u8>) -> nat
    decreases b.len(),
{
    if b.len() == 0 || hex_value(b[0] as char) < 0 {
        0
    } else {
        1 + leading_digits(b.skip(1))
    }
}

/// The error of `ObjectId::from_str` for a text that is no object id: of an even
/// number of bytes the first that is no digit, shown as the character with that
/// code; else the length in bytes.
pub open spec fn object_id_error(s: Seq<char>) -> Seq<char> {
    let b = encode_utf8(s);
    let i = leading_digits(b) as int;
    if b.len() % 2 == 0 && i < b.len() {
        "invalid character '"@ + seq![b[i] as char] + "' was found at index "@ + decimal(i)
            + " in the provided hex string: \""@ + s + "\""@
    } else {
        "provided hex string representation must be exactly 12 bytes, instead got: \""@ + s
            + "\", length "@ + decimal(b.len() as int)
    }
}

/// `ObjectId::from_str` accepts exactly 24 hexadecimal digits and yields the
/// twelve bytes they spell. The text of its error names the first byte that is
/// no digit, or the length.
#[verifier::external_body]
fn parse_object_id(s: &str) -> (r: Result<[u8; 12], String>)
    ensures
        match r {
            Ok(id) => is_object_id(s@) && id@ == object_id_of(s@),
            Err(e) => !is_object_id(s@) && e@ == object_id_error(s@),
        },
{
    <mongodb::bson::oid::ObjectId as std::str::FromStr>::from_str(s).map(|id| id.bytes()).map_err(
        |e| e.to_string(),
    )
}

/// `ObjectId`'s text is its bytes in lowercase hexadecimal.
#[verifier::external_body]
fn object_id_text(id: [u8; 12]) -> (r: String)
    ensures
        r@ == hex_bytes(id@),
{
    mongodb::bson::oid::ObjectId::from_bytes(id).to_string()
}

/// The text of a `bson::DateTime` of so many milliseconds.
pub uninterp spec fn date_text(millis: i64) -> Seq<char>;

/// `bson::DateTime`'s text depends on its milliseconds alone.
#[verifier::external_body]
fn date_time_text(millis: i64) -> (r: String)
    ensures
        r@ == date_text(millis),
{
    mongodb::bson::DateTime::from_millis(millis).to_string()
}

/// The text of a timestamp.
pub open spec fn stamp_text(time: u32, increment: u32) -> Seq<char> {
    "Timestamp("@ + decimal(time as int) + ", "@ + decimal(increment as int) + ")"@
}

/// `bson::Timestamp`'s text names its two numbers.
#[verifier::external_body]
fn timestamp_text(time: u32, increment: u32) -> (r: String)
    ensures
        r@ == stamp_text(time, increment),
{
    mongodb::bson::Timestamp { time, increment }.to_string()
}

/// The text of a `bson::Decimal128` of so many bytes.
pub uninterp spec fn decimal128_text(bytes: Seq<u8>) -> Seq<char>;

/// `bson::Decimal128`'s text depends on its bytes alone.
#[verifier::external_body]
fn decimal_text(bytes: [u8; 16]) -> (r: String)
    ensures
        r@ == decimal128_text(bytes@),
{
    mongodb::bson::Decimal128::from_bytes(bytes).to_string()
}

/// The document key that a table key stands for.
pub open spec fn doc_key(k: Val) -> Result<Seq<char>, Seq<char>> {
    match k {
        Val::Str(b, _) => if valid_utf8(b) {
            Ok(decode_utf8(b))
        } else {
            Err("Invalid document key: not valid UTF-8"@)
        },
        Val::Num(_, text) => Ok(text),
        Val::Int(i) => Ok(decimal(i as int)),
        _ => Err("Invalid key type: "@ + kind_name(kind_of(k))),
    }
}

/// The document that a table stands for.
pub open spec fn doc_of(t: Tab) -> Result<Seq<(Seq<char>, Item)>, Seq<char>>
    decreases t, 0nat,
{
    match doc_elements(t.array, 1, Seq::empty()) {
        Err(e) => Err(e),
        Ok(d) => doc_entries(t.hash, d),
    }
}

/// The document of sequence elements from place `i` on, set in `done`.
pub open spec fn doc_elements(items: Seq<Val>, i: nat, done: Seq<(Seq<char>, Item)>) -> Result<
    Seq<(Seq<char>, Item)>,
    Seq<char>,
>
    decreases items,
{
    if items.len() == 0 {
        Ok(done)
    } else if items[0] is Nil {
        doc_elements(items.skip(1), i + 1, done)
    } else {
        match item_of(items[0], false) {
            Err(e) => Err(e),
            Ok(b) => doc_elements(
                items.skip(1),
                i + 1,
                with_key(done, decimal(signed64(i)), b),
            ),
        }
    }
}

/// The document of other entries, set in `done`.
pub open spec fn doc_entries(es: Seq<(Val, Val)>, done: Seq<(Seq<char>, Item)>) -> Result<
    Seq<(Seq<char>, Item)>,
    Seq<char>,
>
    decreases es,
{
    if es.len() == 0 {
        Ok(done)
    } else {
        match doc_key(es[0].0) {
            Err(e) => Err(e),
            Ok(key) => match item_of(es[0].1, key == "_id"@) {
                Err(e) => Err(e),
                Ok(b) => doc_entries(es.skip(1), with_key(done, key, b)),
            },
        }
    }
}

/// The document value that a Lua value stands for. Under the key `_id` a string
/// is an object id.
pub open spec fn item_of(v: Val, is_id: bool) -> Result<Item, Seq<char>>
    decreases v,
{
    match v {
        Val::Nil => Ok(Item::Null),
        Val::Bool(b) => Ok(Item::Boolean(b)),
        Val::Num(bits, _) => Ok(Item::Double(bits)),
        Val::Int(i) => Ok(Item::Int64(i)),
        Val::Str(b, _) => if !valid_utf8(b) {
            Err("Invalid UTF-8 in string: "@ + utf8_error_text(b))
        } else if !is_id {
            Ok(Item::String(decode_utf8(b)))
        } else if is_object_id(decode_utf8(b)) {
            Ok(Item::ObjectId(object_id_of(decode_utf8(b))))
        } else {
            Err(object_id_error(decode_utf8(b)))
        },
        Val::Table(t) => table_item(t),
        _ => Err("Invalid type: "@ + kind_name(kind_of(v))),
    }
}

/// The document value that a table stands for: a sequence and nothing else is an
/// array, any other table a document.
pub open spec fn table_item(t: Tab) -> Result<Item, Seq<char>>
    decreases t, 1nat,
{
    if strict_len(t) > 0 {
        match list_of(t.array, Seq::empty()) {
            Ok(items) => Ok(Item::Array(items)),
            Err(e) => Err(e),
        }
    } else {
        match doc_of(t) {
            Ok(d) => Ok(Item::Document(d)),
            Err(e) => Err(e),
        }
    }
}

/// The values of array elements, after those in `done`.
pub open spec fn list_of(items: Seq<Val>, done: Seq<Item>) -> Result<Seq<Item>, Seq<char>>
    decreases items,
{
    if items.len() == 0 {
        Ok(done)
    } else {
        match item_of(items[0], false) {
            Err(e) => Err(e),
            Ok(b) => list_of(items.skip(1), done.push(b)),
        }
    }
}

/// The document key that a table key stands for.
fn document_key(k: &LuaValue) -> (r: Result<String, String>)
    ensures
        match doc_key(k@) {
            Ok(key) => r matches Ok(s) && s@ == key,
            Err(e) => r matches Err(m) && m@ == e,
        },
{
    match k {
        LuaValue::String(s) => match from_utf8(s.bytes.as_slice()) {
            Ok(text) => Ok(text.to_owned()),
            Err(_) => Err("Invalid document key: not valid UTF-8".to_owned()),
        },
        LuaValue::Number(n) => Ok(n.text.clone()),
        LuaValue::Integer(i) => Ok(i64_text(*i)),
        _ => {
            let mut m = "Invalid key type: ".to_owned();
            m.append(k.kind().name());
            Err(m)
        },
    }
}

/// How a document turned out, against the outcome it is meant to have.
pub open spec fn doc_meant(
    r: Result<Document, String>,
    want: Result<Seq<(Seq<char>, Item)>, Seq<char>>,
) -> bool {
    match want {
        Ok(d) => r matches Ok(got) && got@ == d,
        Err(e) => r matches Err(m) && m@ == e,
    }
}

/// Sets the sequence elements of a table in a document.
fn add_elements(items: &Vec<LuaValue>, doc: &mut Document) -> (r: Result<(), String>)
    ensures
        match doc_elements(view_list(*items), 1, old(doc)@) {
            Ok(d) => r is Ok && final(doc)@ == d,
            Err(e) => r matches Err(m) && m@ == e,
        },
    decreases items, 0nat,
{
    let ghost vs = view_list(*items);
    let ghost want = doc_elements(vs, 1, doc@);
    let mut i: usize = 0;
    assert(vs.skip(0) =~= vs);
    while i < items.len()
        invariant
            vs == view_list(*items),
            i <= vs.len(),
            want == doc_elements(vs, 1, old(doc)@),
            want == doc_elements(vs.skip(i as int), (i + 1) as nat, doc@),
        decreases vs.len() - i,
    {
        let ghost rest = vs.skip(i as int);
        assert(rest[0] == items@[i as int]@);
        assert(rest.skip(1) =~= vs.skip(i + 1));
        if !items[i].is_nil() {
            let value = lua_to_bson(&items[i], false)?;
            doc.insert(i64_text(integer64(i as u64 + 1)), value);
        }
        i = i + 1;
    }
    assert(vs.skip(i as int) =~= Seq::empty());
    Ok(())
}

/// Sets the other entries of a table in a document.
fn add_entries(es: &Vec<(LuaValue, LuaValue)>, doc: &mut Document) -> (r: Result<(), String>)
    ensures
        match doc_entries(crate::value::view_entries(*es), old(doc)@) {
            Ok(d) => r is Ok && final(doc)@ == d,
            Err(e) => r matches Err(m) && m@ == e,
        },
    decreases es, 0nat,
{
    let ghost vs = crate::value::view_entries(*es);
    let ghost want = doc_entries(vs, doc@);
    let mut i: usize = 0;
    assert(vs.skip(0) =~= vs);
    while i < es.len()
        invariant
            vs == crate::value::view_entries(*es),
            i <= vs.len(),
            want == doc_entries(vs, old(doc)@),
            want == doc_entries(vs.skip(i as int), doc@),
        decreases vs.len() - i,
    {
        let ghost rest = vs.skip(i as int);
        assert(rest[0] == (es@[i as int].0@, es@[i as int].1@));
        assert(rest.skip(1) =~= vs.skip(i + 1));
        let key = document_key(&es[i].0)?;
        let is_id = same_text(key.as_str(), "_id");
        let value = lua_to_bson(&es[i].1, is_id)?;
        doc.insert(key, value);
        i = i + 1;
    }
    assert(vs.skip(i as int) =~= Seq::empty());
    Ok(())
}

/// The document of a table.
pub fn document_of(t: &TableValue) -> (r: Result<Document, String>)
    ensures
        doc_meant(r, doc_of(t@)),
    decreases t, 0nat,
{
    let mut doc = Document::new();
    add_elements(&t.array, &mut doc)?;
    add_entries(&t.hash, &mut doc)?;
    Ok(doc)
}

/// The values of array elements.
fn list_values(items: &Vec<LuaValue>) -> (r: Result<Vec<Bson>, String>)
    ensures
        match list_of(view_list(*items), Seq::empty()) {
            Ok(bs) => r matches Ok(got) && view_items(got) == bs,
            Err(e) => r matches Err(m) && m@ == e,
        },
    decreases items, 0nat,
{
    let mut arr: Vec<Bson> = Vec::new();
    let ghost vs = view_list(*items);
    let ghost want = list_of(vs, Seq::empty());
    let mut i: usize = 0;
    assert(vs.skip(0) =~= vs);
    assert(view_items(arr) =~= Seq::empty());
    while i < items.len()
        invariant
            vs == view_list(*items),
            i <= vs.len(),
            want == list_of(vs, Seq::empty()),
            want == list_of(vs.skip(i as int), view_items(arr)),
        decreases vs.len() - i,
    {
        let ghost rest = vs.skip(i as int);
        assert(rest[0] == items@[i as int]@);
        assert(rest.skip(1) =~= vs.skip(i + 1));
        let value = lua_to_bson(&items[i], false)?;
        let ghost before = arr;
        arr.push(value);
        assert(view_items(arr) =~= view_items(before).push(value@));
        i = i + 1;
    }
    assert(vs.skip(i as int) =~= Seq::empty());
    Ok(arr)
}

/// The document value of a table.
pub fn table_to_bson(t: &TableValue) -> (r: Result<Bson, String>)
    ensures
        match table_item(t@) {
            Ok(b) => r matches Ok(got) && got@ == b,
            Err(e) => r matches Err(m) && m@ == e,
        },
    decreases t, 1nat,
{
    let len = lua_array_size(t);
    if len > 0 {
        let arr = list_values(&t.array)?;
        return Ok(Bson::Array(arr));
    }
    let doc = document_of(t)?;
    Ok(Bson::Document(doc))
}

/// The document value of a Lua value.
pub fn lua_to_bson(v: &LuaValue, is_object_id: bool) -> (r: Result<Bson, String>)
    ensures
        match item_of(v@, is_object_id) {
            Ok(b) => r matches Ok(got) && got@ == b,
            Err(e) => r matches Err(m) && m@ == e,
        },
    decreases v, 0nat,
{
    match v {
        LuaValue::Nil => Ok(Bson::Null),
        LuaValue::Boolean(b) => Ok(Bson::Boolean(*b)),
        LuaValue::Number(n) => Ok(Bson::Double(n.bits)),
        LuaValue::Integer(i) => Ok(Bson::Int64(*i)),
        LuaValue::String(s) => match from_utf8(s.bytes.as_slice()) {
            Ok(text) => {
                if is_object_id {
                    match parse_object_id(text) {
                        Ok(id) => Ok(Bson::ObjectId(id)),
                        Err(e) => Err(e),
                    }
                } else {
                    Ok(Bson::String(text.to_owned()))
                }
            },
            Err(e) => {
                let mut m = "Invalid UTF-8 in string: ".to_owned();
                m.append(e.as_str());
                Err(m)
            },
        },
        LuaValue::Table(t) => table_to_bson(t),
        _ => {
            let mut m = "Invalid type: ".to_owned();
            m.append(v.kind().name());
            Err(m)
        },
    }
}

/// The document of the value in a slot; what is no table has no entries.
pub open spec fn slot_doc(v: Option<Val>) -> Result<Seq<(Seq<char>, Item)>, Seq<char>> {
    match v {
        Some(Val::Table(t)) => doc_of(t),
        _ => Ok(Seq::empty()),
    }
}

/// The document of the value at an index; what is no table has no entries.
pub fn table_to_doc(lua: &LuaStack, index: i32) -> (r: Result<Document, String>)
    requires
        lua.wf(),
        lua.acceptable(index as int),
    ensures
        doc_meant(r, slot_doc(lua.slot(index as int))),
{
    match lua.at(index) {
        Some(LuaValue::Table(t)) => document_of(t),
        _ => Ok(Document::new()),
    }
}

/// The document of a value that must be a table.
pub fn lua_to_doc(v: &LuaValue) -> (r: Result<Document, String>)
    ensures
        match v@ {
            Val::Table(t) => doc_meant(r, doc_of(t)),
            _ => r matches Err(m) && m@ == "Invalid type: "@ + kind_name(kind_of(v@)),
        },
{
    match v {
        LuaValue::Table(t) => document_of(t),
        _ => {
            let mut m = "Invalid type: ".to_owned();
            m.append(v.kind().name());
            Err(m)
        },
    }
}

/// Why a document value has no Lua value, and what an attempt at it leaves on the
/// stack: the tables that were being filled, those of documents each with the key
/// of the next entry, the outermost first.
#[derive(Debug, PartialEq)]
pub struct Unconverted {
    pub message: String,
    pub left: Vec<LuaValue>,
}

/// Model of [`Unconverted`].
pub struct Cut {
    pub message: Seq<char>,
    pub left: Seq<Val>,
}

impl View for Unconverted {
    type V = Cut;

    open spec fn view(&self) -> Cut {
        Cut { message: self.message@, left: view_list(self.left) }
    }
}

/// A failure inside something that is itself unfinished.
pub open spec fn inside(held: Seq<Val>, c: Cut) -> Cut {
    Cut { left: held + c.left, ..c }
}

/// The Lua value that a document value stands for.
pub open spec fn lua_of(b: Item) -> Result<Val, Cut>
    decreases b,
{
    match b {
        Item::Double(bits) => Ok(Val::Num(bits, Seq::empty())),
        Item::String(s) => Ok(Val::Str(encode_utf8(s), None)),
        Item::Array(items) => match lua_elements(items, Seq::empty()) {
            Err(c) => Err(c),
            Ok(array) => Ok(listed(array)),
        },
        Item::Document(fields) => match lua_fields(fields, Tab::empty()) {
            Err(c) => Err(c),
            Ok(t) => Ok(Val::Table(t)),
        },
        Item::Boolean(x) => Ok(Val::Bool(x)),
        Item::Null => Ok(Val::Nil),
        Item::Int32(i) => Ok(Val::Int(i as i64)),
        Item::Int64(i) => Ok(Val::Int(i)),
        Item::Binary(bytes) => Ok(Val::Str(bytes, None)),
        Item::ObjectId(id) => Ok(Val::Str(encode_utf8(hex_bytes(id)), None)),
        Item::DateTime(ms) => Ok(Val::Str(encode_utf8(date_text(ms)), None)),
        Item::Timestamp(t, n) => Ok(Val::Str(encode_utf8(stamp_text(t, n)), None)),
        Item::Decimal128(bytes) => Ok(Val::Str(encode_utf8(decimal128_text(bytes)), None)),
        Item::Other(text) => Err(
            Cut { message: "Unsupported BSON type: "@ + text, left: Seq::empty() },
        ),
    }
}

/// The Lua values of array elements, after those in `done`.
pub open spec fn lua_elements(items: Seq<Item>, done: Seq<Val>) -> Result<Seq<Val>, Cut>
    decreases items,
{
    if items.len() == 0 {
        Ok(done)
    } else {
        match lua_of(items[0]) {
            Err(c) => Err(inside(seq![listed(done)], c)),
            Ok(v) => lua_elements(items.skip(1), done.push(v)),
        }
    }
}

/// The table of document entries, set in `t`.
pub open spec fn lua_fields(fields: Seq<(Seq<char>, Item)>, t: Tab) -> Result<Tab, Cut>
    decreases fields,
{
    if fields.len() == 0 {
        Ok(t)
    } else {
        let key = Val::Str(encode_utf8(fields[0].0), None);
        match lua_of(fields[0].1) {
            Err(c) => Err(inside(seq![Val::Table(t), key], c)),
            Ok(v) => lua_fields(fields.skip(1), t.set(key, v)),
        }
    }
}

/// A text as a Lua string.
fn text_value(s: &str) -> (r: LuaValue)
    ensures
        r@ == Val::Str(encode_utf8(s@), None),
{
    LuaValue::from_bytes(copy_bytes(s.as_bytes()))
}

/// The Lua value of a document value, or why there is none and what is left on
/// the stack.
pub fn bson_to_lua(b: &Bson) -> (r: Result<LuaValue, Unconverted>)
    ensures
        match lua_of(b@) {
            Ok(v) => r matches Ok(got) && got@ == v,
            Err(c) => r matches Err(got) && got@ == c,
        },
    decreases b, 0nat,
{
    match b {
        Bson::Double(bits) => Ok(LuaValue::from_bits(*bits)),
        Bson::String(s) => Ok(text_value(s.as_str())),
        Bson::Array(items) => match array_to_table(items) {
            Ok(t) => Ok(LuaValue::Table(t)),
            Err(e) => Err(e),
        },
        Bson::Document(d) => match document_to_table(d) {
            Ok(t) => Ok(LuaValue::Table(t)),
            Err(e) => Err(e),
        },
        Bson::Boolean(x) => Ok(LuaValue::Boolean(*x)),
        Bson::Null => Ok(LuaValue::Nil),
        Bson::Int32(i) => Ok(LuaValue::Integer(*i as i64)),
        Bson::Int64(i) => Ok(LuaValue::Integer(*i)),
        Bson::Binary(bytes) => Ok(LuaValue::from_bytes(copy_bytes(bytes.as_slice()))),
        Bson::ObjectId(id) => Ok(text_value(object_id_text(*id).as_str())),
        Bson::DateTime(ms) => Ok(text_value(date_time_text(*ms).as_str())),
        Bson::Timestamp { time, increment } => Ok(
            text_value(timestamp_text(*time, *increment).as_str()),
        ),
        Bson::Decimal128(bytes) => Ok(text_value(decimal_text(*bytes).as_str())),
        Bson::Other(text) => {
            let mut m = "Unsupported BSON type: ".to_owned();
            m.append(text.as_str());
            Err(Unconverted { message: m, left: nothing() })
        },
    }
}

/// The table of array elements.
fn array_to_table(items: &Vec<Bson>) -> (r: Result<TableValue, Unconverted>)
    ensures
        match lua_elements(view_items(*items), Seq::empty()) {
            Ok(vs) => r matches Ok(got) && Val::Table(got@) == listed(vs),
            Err(c) => r matches Err(got) && got@ == c,
        },
    decreases items, 0nat,
{
    let mut t = TableValue::new();
    let ghost bs = view_items(*items);
    let ghost want = lua_elements(bs, Seq::empty());
    let mut i: usize = 0;
    assert(bs.skip(0) =~= bs);
    while i < items.len()
        invariant
            bs == view_items(*items),
            i <= bs.len(),
            want == lua_elements(bs, Seq::empty()),
            want == lua_elements(bs.skip(i as int), t@.array),
            t@ == (Tab { array: t@.array, ..Tab::empty() }),
        decreases bs.len() - i,
    {
        let ghost rest = bs.skip(i as int);
        assert(rest[0] == items@[i as int]@);
        assert(rest.skip(1) =~= bs.skip(i + 1));
        let v = match bson_to_lua(&items[i]) {
            Ok(v) => v,
            Err(e) => {
                t.settle();
                return Err(Unconverted { message: e.message, left: above_table(t, e.left) });
            },
        };
        let ghost before = t.array;
        t.array.push(v);
        proof {
            lemma_list_push(before, t.array, v);
        }
        i = i + 1;
    }
    assert(bs.skip(i as int) =~= Seq::empty());
    t.settle();
    Ok(t)
}

/// The table of a document, or why there is none and what is left on the stack.
pub fn document_to_table(d: &Document) -> (r: Result<TableValue, Unconverted>)
    ensures
        match lua_fields(d@, Tab::empty()) {
            Ok(t) => r matches Ok(got) && got@ == t,
            Err(c) => r matches Err(got) && got@ == c,
        },
    decreases d, 0nat,
{
    let mut t = TableValue::new();
    let ghost fs = d@;
    let ghost want = lua_fields(fs, Tab::empty());
    let mut i: usize = 0;
    assert(fs.skip(0) =~= fs);
    while i < d.entries.len()
        invariant
            fs == d@,
            i <= fs.len(),
            want == lua_fields(fs, Tab::empty()),
            want == lua_fields(fs.skip(i as int), t@),
        decreases fs.len() - i,
    {
        let ghost rest = fs.skip(i as int);
        assert(rest[0] == (d.entries@[i as int].0@, d.entries@[i as int].1@));
        assert(rest.skip(1) =~= fs.skip(i + 1));
        let key = text_value(d.entries[i].0.as_str());
        let v = match bson_to_lua(&d.entries[i].1) {
            Ok(v) => v,
            Err(e) => {
                return Err(Unconverted { message: e.message, left: above_key(t, key, e.left) });
            },
        };
        t.set(key, v);
        i = i + 1;
    }
    assert(fs.skip(i as int) =~= Seq::empty());
    Ok(t)
}

/// The value of a table after its way through a document. What a table can be
/// made into a document of always has its way back.
pub fn tt(lua: &LuaStack) -> (r: Result<LuaValue, String>)
    requires
        lua.wf(),
    ensures
        match slot_doc(lua.slot(1)) {
            Err(e) => r matches Err(m) && m@ == e,
            Ok(d) => r matches Ok(v) && lua_fields(d, Tab::empty()) matches Ok(t) && v@
                == Val::Table(t),
        },
{
    let doc = table_to_doc(lua, 1)?;
    proof {
        if let Some(Val::Table(t)) = lua.slot(1) {
            law_documents_of_tables_convert(t);
        }
    }
    match document_to_table(&doc) {
        Ok(t) => Ok(LuaValue::Table(t)),
        Err(e) => Err(e.message),
    }
}

} // verus!
