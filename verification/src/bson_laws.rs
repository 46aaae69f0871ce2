//! What a document gives back of the table that it was made from.
use vstd::prelude::*;
use vstd::utf8::*;

use crate::bson::{
    distinct, doc_elements, doc_entries, doc_key, doc_of, hex_value, is_object_id, item_of,
    key_place, law_insert_then_get, lemma_key_place, list_of, lua_elements, lua_fields, lua_of,
    object_id_of, table_item, with_key, Cut, Item,
};
use crate::laux::strict_len;
use crate::number::signed64;
use crate::seri_laws::{bare, bare_entries, bare_list, bare_table, distinct_keys, proper_table};
use crate::table::law_strict_length_means_contiguous;
use crate::text::{decimal, digit_char, hex_bytes};
use crate::value::{find, lemma_find, raw_equal, trimmed, Tab, Val};

verus! {

proof fn lemma_elements_distinct(items: Seq<Val>, i: nat, done: Seq<(Seq<char>, Item)>)
    requires
        distinct(done),
    ensures
        doc_elements(items, i, done) matches Ok(d) ==> distinct(d),
    decreases items.len(),
{
    if items.len() > 0 {
        if items[0] is Nil {
            lemma_elements_distinct(items.skip(1), i + 1, done);
        } else if let Ok(b) = item_of(items[0], false) {
            let key = decimal(signed64(i));
            law_insert_then_get(done, key, b, key);
            lemma_elements_distinct(items.skip(1), i + 1, with_key(done, key, b));
        }
    }
}

proof fn lemma_entries_distinct(es: Seq<(Val, Val)>, done: Seq<(Seq<char>, Item)>)
    requires
        distinct(done),
    ensures
        doc_entries(es, done) matches Ok(d) ==> distinct(d),
    decreases es.len(),
{
    if es.len() > 0 {
        if let Ok(key) = doc_key(es[0].0) {
            if let Ok(b) = item_of(es[0].1, key == "_id"@) {
                law_insert_then_get(done, key, b, key);
                lemma_entries_distinct(es.skip(1), with_key(done, key, b));
            }
        }
    }
}

/// No key occurs twice in the document of a table, even where two table keys
/// have one text.
pub proof fn law_documents_have_distinct_keys(t: Tab)
    ensures
        doc_of(t) matches Ok(d) ==> distinct(d),
{
    lemma_elements_distinct(t.array, 1, Seq::empty());
    if let Ok(d) = doc_elements(t.array, 1, Seq::empty()) {
        lemma_entries_distinct(t.hash, d);
    }
}

/// A document value with none in it that has no Lua form.
pub open spec fn plain(b: Item) -> bool
    decreases b,
{
    match b {
        Item::Array(items) => plain_items(items),
        Item::Document(fields) => plain_fields(fields),
        Item::Other(_) => false,
        _ => true,
    }
}

pub open spec fn plain_items(items: Seq<Item>) -> bool
    decreases items,
{
    forall|i: int| 0 <= i < items.len() ==> plain(#[trigger] items[i])
}

pub open spec fn plain_fields(fields: Seq<(Seq<char>, Item)>) -> bool
    decreases fields,
{
    forall|i: int| 0 <= i < fields.len() ==> plain((#[trigger] fields[i]).1)
}

/// A plain document value has a Lua value.
pub proof fn law_plain_values_convert(b: Item)
    requires
        plain(b),
    ensures
        lua_of(b) is Ok,
    decreases b, 0nat,
{
    match b {
        Item::Array(items) => {
            lemma_elements_convert(items, Seq::empty());
        },
        Item::Document(fields) => {
            lemma_fields_convert(fields, Tab::empty());
        },
        _ => {},
    }
}

proof fn lemma_elements_convert(items: Seq<Item>, done: Seq<Val>)
    requires
        plain_items(items),
    ensures
        lua_elements(items, done) is Ok,
    decreases items, 0nat,
{
    if items.len() > 0 {
        law_plain_values_convert(items[0]);
        let rest = items.skip(1);
        assert forall|i: int| 0 <= i < rest.len() implies plain(#[trigger] rest[i]) by {
            assert(rest[i] == items[i + 1]);
        }
        lemma_elements_convert(rest, done.push(lua_of(items[0])->Ok_0));
    }
}

proof fn lemma_fields_convert(fields: Seq<(Seq<char>, Item)>, t: Tab)
    requires
        plain_fields(fields),
    ensures
        lua_fields(fields, t) is Ok,
    decreases fields, 0nat,
{
    if fields.len() > 0 {
        law_plain_values_convert(fields[0].1);
        let rest = fields.skip(1);
        assert forall|i: int| 0 <= i < rest.len() implies plain((#[trigger] rest[i]).1) by {
            assert(rest[i] == fields[i + 1]);
        }
        let key = Val::Str(encode_utf8(fields[0].0), None);
        lemma_fields_convert(rest, t.set(key, lua_of(fields[0].1)->Ok_0));
    }
}

/// A document value that comes from Lua is plain.
proof fn lemma_item_plain(v: Val, is_id: bool)
    ensures
        item_of(v, is_id) matches Ok(b) ==> plain(b),
    decreases v, 0nat,
{
    if let Val::Table(t) = v {
        if strict_len(t) > 0 {
            lemma_list_plain(t.array, Seq::empty());
        } else {
            lemma_doc_plain(t);
        }
    }
}

proof fn lemma_list_plain(items: Seq<Val>, done: Seq<Item>)
    requires
        plain_items(done),
    ensures
        list_of(items, done) matches Ok(bs) ==> plain_items(bs),
    decreases items, 0nat,
{
    if items.len() > 0 {
        lemma_item_plain(items[0], false);
        if let Ok(b) = item_of(items[0], false) {
            lemma_list_plain(items.skip(1), done.push(b));
        }
    }
}

proof fn lemma_with_key_plain(done: Seq<(Seq<char>, Item)>, key: Seq<char>, b: Item)
    requires
        plain_fields(done),
        plain(b),
    ensures
        plain_fields(with_key(done, key, b)),
{
    lemma_key_place(done, key);
    let more = with_key(done, key, b);
    assert forall|i: int| 0 <= i < more.len() implies plain((#[trigger] more[i]).1) by {
        if i < done.len() {
            assert(plain(done[i].1));
        }
    }
}

proof fn lemma_doc_elements_plain(items: Seq<Val>, i: nat, done: Seq<(Seq<char>, Item)>)
    requires
        plain_fields(done),
    ensures
        doc_elements(items, i, done) matches Ok(d) ==> plain_fields(d),
    decreases items, 0nat,
{
    if items.len() > 0 {
        if items[0] is Nil {
            lemma_doc_elements_plain(items.skip(1), i + 1, done);
        } else {
            lemma_item_plain(items[0], false);
            if let Ok(b) = item_of(items[0], false) {
                let key = decimal(signed64(i));
                lemma_with_key_plain(done, key, b);
                lemma_doc_elements_plain(items.skip(1), i + 1, with_key(done, key, b));
            }
        }
    }
}

proof fn lemma_doc_entries_plain(es: Seq<(Val, Val)>, done: Seq<(Seq<char>, Item)>)
    requires
        plain_fields(done),
    ensures
        doc_entries(es, done) matches Ok(d) ==> plain_fields(d),
    decreases es, 0nat,
{
    if es.len() > 0 {
        if let Ok(key) = doc_key(es[0].0) {
            lemma_item_plain(es[0].1, key == "_id"@);
            if let Ok(b) = item_of(es[0].1, key == "_id"@) {
                lemma_with_key_plain(done, key, b);
                lemma_doc_entries_plain(es.skip(1), with_key(done, key, b));
            }
        }
    }
}

proof fn lemma_doc_plain(t: Tab)
    ensures
        doc_of(t) matches Ok(d) ==> plain_fields(d),
    decreases t, 0nat,
{
    lemma_doc_elements_plain(t.array, 1, Seq::empty());
    if let Ok(d) = doc_elements(t.array, 1, Seq::empty()) {
        lemma_doc_entries_plain(t.hash, d);
    }
}

/// The document of a table can always be made into a table again.
pub proof fn law_documents_of_tables_convert(t: Tab)
    ensures
        doc_of(t) matches Ok(d) ==> lua_fields(d, Tab::empty()) is Ok,
{
    lemma_doc_plain(t);
    if let Ok(d) = doc_of(t) {
        lemma_fields_convert(d, Tab::empty());
    }
}

/// A text with hexadecimal digits in lowercase.
pub open spec fn lower_hex(s: Seq<char>) -> Seq<char> {
    s.map_values(|c: char| digit_char(hex_value(c)))
}

proof fn lemma_hex(s: Seq<char>, n: nat)
    requires
        s.len() == 24,
        is_object_id(s),
        n <= 12,
    ensures
        hex_bytes(object_id_of(s).take(n as int)) == lower_hex(s).take(2 * n as int),
    decreases n,
{
    let id = object_id_of(s);
    if n == 0 {
        assert(lower_hex(s).take(0) =~= Seq::empty());
    } else {
        let m = (n - 1) as nat;
        lemma_hex(s, m);
        let b = id.take(n as int);
        assert(b.drop_last() =~= id.take(m as int));
        let hi = hex_value(s[2 * m as int]);
        let lo = hex_value(s[2 * m as int + 1]);
        assert(0 <= hi < 16 && 0 <= lo < 16);
        assert(b.last() == (16 * hi + lo) as u8);
        assert((16 * hi + lo) / 16 == hi && (16 * hi + lo) % 16 == lo);
        assert(lower_hex(s).take(2 * n as int) =~= lower_hex(s).take(2 * m as int).push(
            digit_char(hi),
        ).push(digit_char(lo)));
    }
}

/// An object id reads back as the digits it was written with, in lowercase.
pub proof fn law_object_ids_read_back(s: Seq<char>)
    requires
        is_object_id(s),
    ensures
        hex_bytes(object_id_of(s)) == lower_hex(s),
{
    lemma_hex(s, 12);
    assert(object_id_of(s).take(12) =~= object_id_of(s));
    assert(lower_hex(s).take(24) =~= lower_hex(s));
}

/// A value that a document can hold without loss: no nil, text in UTF-8 and not
/// under the key of object ids, and tables that are either sequences or have
/// texts for keys.
pub open spec fn storable(v: Val, is_id: bool) -> bool
    decreases v,
{
    match v {
        Val::Bool(_) => true,
        Val::Num(_, _) => true,
        Val::Int(_) => true,
        Val::Str(b, _) => valid_utf8(b) && !is_id,
        Val::Table(t) => storable_table(t),
        _ => false,
    }
}

pub open spec fn storable_table(t: Tab) -> bool
    decreases t,
{
    &&& proper_table(t)
    &&& t.array.len() == 0 || t.hash.len() == 0
    &&& storable_list(t.array)
    &&& storable_entries(t.hash)
}

pub open spec fn storable_list(vs: Seq<Val>) -> bool
    decreases vs,
{
    forall|i: int| 0 <= i < vs.len() ==> storable(#[trigger] vs[i], false)
}

pub open spec fn storable_entries(es: Seq<(Val, Val)>) -> bool
    decreases es,
{
    forall|i: int|
        0 <= i < es.len() ==> {
            &&& (#[trigger] es[i]).0 matches Val::Str(b, _)
            &&& valid_utf8(es[i].0->Str_0)
            &&& storable(es[i].1, decode_utf8(es[i].0->Str_0) == "_id"@)
        }
}

/// The document value of a storable value.
spec fn image(v: Val, is_id: bool) -> Item {
    item_of(v, is_id)->Ok_0
}

spec fn images(vs: Seq<Val>) -> Seq<Item> {
    Seq::new(vs.len(), |i: int| image(vs[i], false))
}

spec fn field_of(e: (Val, Val)) -> (Seq<char>, Item) {
    let key = decode_utf8(e.0->Str_0);
    (key, image(e.1, key == "_id"@))
}

spec fn fields_of(es: Seq<(Val, Val)>) -> Seq<(Seq<char>, Item)> {
    Seq::new(es.len(), |i: int| field_of(es[i]))
}

/// Whether a value is held and given back.
spec fn kept(v: Val, is_id: bool) -> bool {
    item_of(v, is_id) is Ok && lua_of(image(v, is_id)) == Ok::<Val, Cut>(bare(v))
}

/// A storable value comes back from a document as it was; what it loses is the
/// machine's text and coercions and its metatables; its tables come back new.
pub proof fn law_document_round_trip(v: Val, is_id: bool)
    requires
        storable(v, is_id),
    ensures
        item_of(v, is_id) is Ok,
        lua_of(item_of(v, is_id)->Ok_0) == Ok::<Val, Cut>(bare(v)),
    decreases v, 0nat,
{
    match v {
        Val::Str(b, _) => {
            decode_utf8_encode_utf8(b);
        },
        Val::Table(t) => {
            lemma_table_kept(t);
        },
        _ => {},
    }
}

proof fn lemma_table_kept(t: Tab)
    requires
        storable_table(t),
    ensures
        table_item(t) is Ok,
        lua_of(table_item(t)->Ok_0) == Ok::<Val, Cut>(Val::Table(bare_table(t))),
    decreases t, 0nat,
{
    law_strict_length_means_contiguous(t);
    assert forall|i: int| 0 <= i < t.array.len() implies !((#[trigger] t.array[i]) is Nil) by {
        assert(storable(t.array[i], false));
    }
    if t.array.len() > 0 {
        lemma_list_kept(t.array);
        lemma_list_there(t.array, Seq::empty(), 0);
        assert(t.array.skip(0) =~= t.array);
        assert(Seq::<Item>::empty() + images(t.array).skip(0) =~= images(t.array));
        lemma_list_back(t.array, Seq::empty(), 0);
        assert(images(t.array).skip(0) =~= images(t.array));
        assert(Seq::<Val>::empty() + bare_list(t.array).skip(0) =~= bare_list(t.array));
        let whole = Tab { array: bare_list(t.array), ..Tab::empty() };
        assert(bare_entries(t.hash) =~= Seq::empty());
        assert(whole == bare_table(t));
        assert(trimmed(whole.array) == whole.array) by {
            assert(whole.array.last() == bare(t.array.last()));
            assert(!(t.array[t.array.len() - 1] is Nil));
        }
        assert(whole.absorbed() == whole);
    } else {
        lemma_entries_kept(t.hash);
        assert(doc_elements(t.array, 1, Seq::empty()) == Ok::<Seq<(Seq<char>, Item)>, Seq<char>>(
            Seq::empty(),
        ));
        assert(t.hash.skip(0) =~= t.hash);
        assert(fields_of(t.hash).take(0) =~= Seq::empty());
        assert(fields_of(t.hash).skip(0) =~= fields_of(t.hash));
        lemma_entries_there(t.hash, 0);
        assert(bare_entries(t.hash).take(0) =~= Seq::empty());
        lemma_entries_back(t, Tab::empty(), 0);
        assert(bare_list(t.array) =~= Seq::empty());
    }
}

proof fn lemma_list_kept(vs: Seq<Val>)
    requires
        storable_list(vs),
    ensures
        forall|i: int| 0 <= i < vs.len() ==> kept(#[trigger] vs[i], false),
    decreases vs, 0nat,
{
    assert forall|i: int| 0 <= i < vs.len() implies kept(#[trigger] vs[i], false) by {
        assert(storable(vs[i], false));
        law_document_round_trip(vs[i], false);
    }
}

proof fn lemma_list_there(vs: Seq<Val>, done: Seq<Item>, i: int)
    requires
        0 <= i <= vs.len(),
        forall|i: int| 0 <= i < vs.len() ==> kept(#[trigger] vs[i], false),
    ensures
        list_of(vs.skip(i), done) == Ok::<Seq<Item>, Seq<char>>(done + images(vs).skip(i)),
    decreases vs.len() - i,
{
    let rest = vs.skip(i);
    if i == vs.len() {
        assert(done + images(vs).skip(i) =~= done);
    } else {
        assert(rest[0] == vs[i]);
        assert(kept(vs[i], false));
        assert(rest.skip(1) =~= vs.skip(i + 1));
        let next = done.push(image(vs[i], false));
        lemma_list_there(vs, next, i + 1);
        assert(next + images(vs).skip(i + 1) =~= done + images(vs).skip(i));
    }
}

proof fn lemma_list_back(vs: Seq<Val>, done: Seq<Val>, i: int)
    requires
        0 <= i <= vs.len(),
        forall|i: int| 0 <= i < vs.len() ==> kept(#[trigger] vs[i], false),
    ensures
        lua_elements(images(vs).skip(i), done) == Ok::<Seq<Val>, Cut>(
            done + bare_list(vs).skip(i),
        ),
    decreases vs.len() - i,
{
    let rest = images(vs).skip(i);
    if i == vs.len() {
        assert(done + bare_list(vs).skip(i) =~= done);
    } else {
        assert(kept(vs[i], false));
        assert(rest[0] == image(vs[i], false));
        assert(rest.skip(1) =~= images(vs).skip(i + 1));
        let next = done.push(bare(vs[i]));
        lemma_list_back(vs, next, i + 1);
        assert(next + bare_list(vs).skip(i + 1) =~= done + bare_list(vs).skip(i));
    }
}

/// Whether an entry is held and given back.
spec fn kept_entry(e: (Val, Val)) -> bool {
    &&& e.0 matches Val::Str(b, _)
    &&& valid_utf8(e.0->Str_0)
    &&& kept(e.1, decode_utf8(e.0->Str_0) == "_id"@)
}

proof fn lemma_entries_kept(es: Seq<(Val, Val)>)
    requires
        storable_entries(es),
    ensures
        forall|i: int| 0 <= i < es.len() ==> kept_entry(#[trigger] es[i]),
    decreases es, 0nat,
{
    assert forall|i: int| 0 <= i < es.len() implies kept_entry(#[trigger] es[i]) by {
        law_document_round_trip(es[i].1, decode_utf8(es[i].0->Str_0) == "_id"@);
    }
}

proof fn lemma_entries_there(es: Seq<(Val, Val)>, i: int)
    requires
        0 <= i <= es.len(),
        distinct_keys(es),
        forall|i: int| 0 <= i < es.len() ==> kept_entry(#[trigger] es[i]),
    ensures
        doc_entries(es.skip(i), fields_of(es).take(i)) == Ok::<Seq<(Seq<char>, Item)>, Seq<char>>(
            fields_of(es),
        ),
    decreases es.len() - i,
{
    let done = fields_of(es).take(i);
    let rest = es.skip(i);
    if i == es.len() {
        assert(done =~= fields_of(es));
    } else {
        assert(rest[0] == es[i]);
        assert(kept_entry(es[i]));
        assert(rest.skip(1) =~= es.skip(i + 1));
        let (key, b) = field_of(es[i]);
        lemma_key_place(done, key);
        let j = key_place(done, key);
        if j >= 0 {
            assert(done[j] == field_of(es[j]));
            assert(kept_entry(es[j]));
            decode_utf8_encode_utf8(es[i].0->Str_0);
            decode_utf8_encode_utf8(es[j].0->Str_0);
            assert(!raw_equal(es[j].0, es[i].0));
        }
        assert(with_key(done, key, b) =~= fields_of(es).take(i + 1));
        lemma_entries_there(es, i + 1);
    }
}

proof fn lemma_entries_back(t: Tab, u: Tab, i: int)
    requires
        0 <= i <= t.hash.len(),
        distinct_keys(t.hash),
        forall|i: int| 0 <= i < t.hash.len() ==> kept_entry(#[trigger] t.hash[i]),
        forall|i: int| 0 <= i < t.hash.len() ==> !((#[trigger] t.hash[i].1) is Nil),
        u == (Tab { hash: bare_entries(t.hash).take(i), ..Tab::empty() }),
    ensures
        lua_fields(fields_of(t.hash).skip(i), u) == Ok::<Tab, Cut>(
            Tab { hash: bare_entries(t.hash), ..Tab::empty() },
        ),
    decreases t.hash.len() - i,
{
    let es = t.hash;
    let rest = fields_of(es).skip(i);
    if i == es.len() {
        assert(u.hash =~= bare_entries(es));
    } else {
        assert(kept_entry(es[i]));
        assert(rest[0] == field_of(es[i]));
        assert(rest.skip(1) =~= fields_of(es).skip(i + 1));
        let b = es[i].0->Str_0;
        decode_utf8_encode_utf8(b);
        let k = Val::Str(b, None);
        lemma_find(u.hash, k);
        let j = find(u.hash, k);
        if j >= 0 {
            assert(u.hash[j].0 == bare(es[j].0));
            assert(kept_entry(es[j]));
            assert(!raw_equal(es[j].0, es[i].0));
        }
        assert(!(es[i].1 is Nil));
        let next = u.set(k, bare(es[i].1));
        assert(next.hash =~= bare_entries(es).take(i + 1));
        lemma_entries_back(t, next, i + 1);
    }
}

} // verus!
