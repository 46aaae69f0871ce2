//! What documents hold of the tables that they are made from, and what tables
//! hold of documents.
use vstd::prelude::*;
use vstd::utf8::*;

use crate::bson::{
    distinct, doc_elements, doc_entries, doc_key, doc_of, item_of, key_place,
    law_insert_then_get, lemma_key_place, list_of, lua_elements, lua_fields, lua_of, table_item,
    with_key, Cut, Item,
};
use crate::cursor::is_sequence;
use crate::number::signed64;
use crate::seri_laws::distinct_keys;
use crate::table::{law_strict_length_means_contiguous, machine_form};
use crate::text::{decimal, hex_bytes, utf8_error_text};
use crate::text_laws::law_decimals_spell_their_integers;
use crate::value::{find, kind_name, kind_of, lemma_find, raw_equal, Tab, Val};

verus! {

/// What a document has under a key.
pub open spec fn held(d: Seq<(Seq<char>, Item)>, key: Seq<char>) -> Option<Item> {
    if exists|i: int| 0 <= i < d.len() && (#[trigger] d[i]).0 == key {
        Some(d[choose|i: int| 0 <= i < d.len() && (#[trigger] d[i]).0 == key].1)
    } else {
        None
    }
}

proof fn lemma_held(d: Seq<(Seq<char>, Item)>, key: Seq<char>)
    requires
        distinct(d),
    ensures
        held(d, key) == if key_place(d, key) >= 0 {
            Some(d[key_place(d, key)].1)
        } else {
            None
        },
{
    lemma_key_place(d, key);
    let j = key_place(d, key);
    if j >= 0 {
        assert(d[j].0 == key);
        let i = choose|i: int| 0 <= i < d.len() && (#[trigger] d[i]).0 == key;
        if i < j {
            assert(d[i].0 != d[j].0);
        } else if j < i {
            assert(d[j].0 != d[i].0);
        }
    }
}

proof fn lemma_held_with(d: Seq<(Seq<char>, Item)>, key: Seq<char>, v: Item, other: Seq<char>)
    requires
        distinct(d),
    ensures
        distinct(with_key(d, key, v)),
        held(with_key(d, key, v), key) == Some(v),
        other != key ==> held(with_key(d, key, v), other) == held(d, other),
{
    law_insert_then_get(d, key, v, other);
    let e = with_key(d, key, v);
    lemma_held(d, other);
    lemma_held(e, other);
    lemma_held(e, key);
}

/// The value that an entry puts into a document.
pub open spec fn entry_item(e: (Val, Val)) -> Result<Item, Seq<char>> {
    item_of(e.1, doc_key(e.0) == Ok::<Seq<char>, Seq<char>>("_id"@))
}

/// No two entries have keys of the same text.
pub open spec fn texts_differ(es: Seq<(Val, Val)>) -> bool {
    forall|i: int, j: int|
        0 <= i < j < es.len() ==> doc_key((#[trigger] es[i]).0) != doc_key((#[trigger] es[j]).0)
}

proof fn lemma_entries_held(es: Seq<(Val, Val)>, done: Seq<(Seq<char>, Item)>)
    requires
        distinct(done),
        texts_differ(es),
    ensures
        doc_entries(es, done) matches Ok(d) ==> {
            &&& distinct(d)
            &&& forall|i: int|
                0 <= i < es.len() ==> doc_key((#[trigger] es[i]).0) is Ok && entry_item(es[i])
                    is Ok && held(d, doc_key(es[i].0)->Ok_0) == Some(entry_item(es[i])->Ok_0)
            &&& forall|key: Seq<char>|
                (forall|i: int|
                    0 <= i < es.len() ==> doc_key((#[trigger] es[i]).0) != Ok::<
                        Seq<char>,
                        Seq<char>,
                    >(key)) ==> #[trigger] held(d, key) == held(done, key)
        },
    decreases es.len(),
{
    if es.len() > 0 {
        let rest = es.skip(1);
        if let Ok(d) = doc_entries(es, done) {
            let key = doc_key(es[0].0)->Ok_0;
            let b = item_of(es[0].1, key == "_id"@)->Ok_0;
            let next = with_key(done, key, b);
            lemma_held_with(done, key, b, key);
            assert forall|i: int, j: int| 0 <= i < j < rest.len() implies doc_key(
                (#[trigger] rest[i]).0,
            ) != doc_key((#[trigger] rest[j]).0) by {
                assert(rest[i] == es[i + 1]);
                assert(rest[j] == es[j + 1]);
            }
            lemma_entries_held(rest, next);
            assert forall|i: int| 0 <= i < rest.len() implies doc_key((#[trigger] rest[i]).0) != Ok::<
                Seq<char>,
                Seq<char>,
            >(key) by {
                assert(rest[i] == es[i + 1]);
                assert(doc_key(es[0].0) != doc_key(es[i + 1].0));
            }
            assert(held(d, key) == held(next, key));
            assert(entry_item(es[0]) == Ok::<Item, Seq<char>>(b));
            assert forall|i: int| 0 <= i < es.len() implies doc_key((#[trigger] es[i]).0) is Ok
                && entry_item(es[i]) is Ok && held(d, doc_key(es[i].0)->Ok_0) == Some(
                entry_item(es[i])->Ok_0,
            ) by {
                if i > 0 {
                    assert(es[i] == rest[i - 1]);
                }
            }
            assert forall|other: Seq<char>|
                (forall|i: int|
                    0 <= i < es.len() ==> doc_key((#[trigger] es[i]).0) != Ok::<
                        Seq<char>,
                        Seq<char>,
                    >(other)) implies #[trigger] held(d, other) == held(done, other) by {
                assert(doc_key(es[0].0) != Ok::<Seq<char>, Seq<char>>(other));
                assert forall|i: int| 0 <= i < rest.len() implies doc_key((#[trigger] rest[i]).0)
                    != Ok::<Seq<char>, Seq<char>>(other) by {
                    assert(rest[i] == es[i + 1]);
                }
                lemma_held_with(done, key, b, other);
            }
        }
    }
}

/// The decimal texts of different integers differ.
pub proof fn law_decimals_differ(a: int, b: int)
    ensures
        a != b ==> decimal(a) != decimal(b),
{
    law_decimals_spell_their_integers(a);
    law_decimals_spell_their_integers(b);
}

proof fn lemma_elements_held(items: Seq<Val>, i: nat, done: Seq<(Seq<char>, Item)>)
    requires
        distinct(done),
        i + items.len() < i64::MAX,
    ensures
        doc_elements(items, i, done) matches Ok(d) ==> {
            &&& distinct(d)
            &&& forall|k: int|
                0 <= k < items.len() && !((#[trigger] items[k]) is Nil) ==> item_of(items[k], false)
                    is Ok && held(d, decimal(i + k)) == Some(item_of(items[k], false)->Ok_0)
            &&& forall|key: Seq<char>|
                (forall|n: int| i <= n < i + items.len() ==> key != #[trigger] decimal(n))
                    ==> #[trigger] held(d, key) == held(done, key)
        },
    decreases items.len(),
{
    if items.len() > 0 {
        let rest = items.skip(1);
        if let Ok(d) = doc_elements(items, i, done) {
            let key = decimal(i as int);
            let b = item_of(items[0], false)->Ok_0;
            let next = if items[0] is Nil {
                done
            } else {
                with_key(done, key, b)
            };
            lemma_held_with(done, key, b, key);
            lemma_elements_held(rest, i + 1, next);
            assert forall|n: int| i + 1 <= n < i + 1 + rest.len() implies key != #[trigger] decimal(
                n,
            ) by {
                law_decimals_differ(i as int, n);
            }
            assert(held(d, key) == held(next, key));
            assert forall|k: int|
                0 <= k < items.len() && !((#[trigger] items[k]) is Nil) implies item_of(
                items[k],
                false,
            ) is Ok && held(d, decimal(i + k)) == Some(item_of(items[k], false)->Ok_0) by {
                if k > 0 {
                    assert(items[k] == rest[k - 1]);
                    assert(i + 1 + (k - 1) == i + k);
                }
            }
            assert forall|other: Seq<char>|
                (forall|n: int| i <= n < i + items.len() ==> other != #[trigger] decimal(n))
                implies #[trigger] held(d, other) == held(done, other) by {
                assert(other != decimal(i as int));
                lemma_held_with(done, key, b, other);
            }
        }
    }
}

/// The document of a table has under the text of every key what the value there
/// becomes, and nothing under any other text. An element of the sequence part is
/// under its place in digits; the keys of the other entries are texts of their
/// own, none of them like another.
pub proof fn law_documents_hold_their_tables(t: Tab)
    requires
        t.array.len() + 1 < i64::MAX,
        texts_differ(t.hash),
        forall|i: int, n: int|
            0 <= i < t.hash.len() && 1 <= n <= t.array.len() ==> doc_key((#[trigger] t.hash[i]).0)
                != Ok::<Seq<char>, Seq<char>>(#[trigger] decimal(n)),
    ensures
        doc_of(t) matches Ok(d) ==> {
            &&& forall|i: int|
                0 <= i < t.hash.len() ==> doc_key((#[trigger] t.hash[i]).0) is Ok && entry_item(
                    t.hash[i],
                ) is Ok && held(d, doc_key(t.hash[i].0)->Ok_0) == Some(entry_item(t.hash[i])->Ok_0)
            &&& forall|k: int|
                0 <= k < t.array.len() && !((#[trigger] t.array[k]) is Nil) ==> item_of(
                    t.array[k],
                    false,
                ) is Ok && held(d, decimal(k + 1)) == Some(item_of(t.array[k], false)->Ok_0)
            &&& forall|key: Seq<char>|
                (forall|i: int|
                    0 <= i < t.hash.len() ==> doc_key((#[trigger] t.hash[i]).0) != Ok::<
                        Seq<char>,
                        Seq<char>,
                    >(key)) && (forall|n: int| 1 <= n <= t.array.len() ==> key != #[trigger] decimal(
                    n,
                )) ==> #[trigger] held(d, key) is None
        },
{
    let empty = Seq::<(Seq<char>, Item)>::empty();
    lemma_elements_held(t.array, 1, empty);
    if let Ok(d) = doc_of(t) {
        let mid = doc_elements(t.array, 1, empty)->Ok_0;
        lemma_entries_held(t.hash, mid);
        assert forall|k: int| 0 <= k < t.array.len() && !((#[trigger] t.array[k]) is Nil) implies item_of(
            t.array[k],
            false,
        ) is Ok && held(d, decimal(k + 1)) == Some(item_of(t.array[k], false)->Ok_0) by {
            let key = decimal(k + 1);
            assert forall|i: int| 0 <= i < t.hash.len() implies doc_key((#[trigger] t.hash[i]).0)
                != Ok::<Seq<char>, Seq<char>>(key) by {}
            assert(held(d, key) == held(mid, key));
            assert(1 + k == k + 1);
        }
    }
}

/// What values become in a document: nil null, switches and integers and floats
/// themselves, text itself, and under the key of object ids the id that its 24
/// digits spell. A table that is a sequence is an array, any other a document.
/// Anything else is refused by its kind.
pub proof fn law_values_become_document_values(v: Val, is_id: bool)
    ensures
        match v {
            Val::Nil => item_of(v, is_id) == Ok::<Item, Seq<char>>(Item::Null),
            Val::Bool(b) => item_of(v, is_id) == Ok::<Item, Seq<char>>(Item::Boolean(b)),
            Val::Int(i) => item_of(v, is_id) == Ok::<Item, Seq<char>>(Item::Int64(i)),
            Val::Num(bits, _) => item_of(v, is_id) == Ok::<Item, Seq<char>>(Item::Double(bits)),
            Val::Str(b, _) => {
                &&& !valid_utf8(b) ==> item_of(v, is_id) == Err::<Item, Seq<char>>(
                    "Invalid UTF-8 in string: "@ + utf8_error_text(b),
                )
                &&& valid_utf8(b) && !is_id ==> item_of(v, is_id) == Ok::<Item, Seq<char>>(
                    Item::String(decode_utf8(b)),
                )
                &&& valid_utf8(b) && is_id && item_of(v, is_id) is Ok ==> item_of(v, is_id)->Ok_0
                    is ObjectId && decode_utf8(b).len() == 24
            },
            Val::Table(t) => machine_form(t) ==> match item_of(v, is_id) {
                Ok(Item::Array(bs)) => is_sequence(t) && t.array.len() > 0,
                Ok(Item::Document(d)) => !(is_sequence(t) && t.array.len() > 0) && doc_of(t) == Ok::<
                    Seq<(Seq<char>, Item)>,
                    Seq<char>,
                >(d),
                Ok(_) => false,
                Err(_) => true,
            },
            _ => item_of(v, is_id) == Err::<Item, Seq<char>>(
                "Invalid type: "@ + kind_name(kind_of(v)),
            ),
        },
{
    if let Val::Table(t) = v {
        if machine_form(t) {
            law_strict_length_means_contiguous(t);
        }
    }
}

proof fn lemma_list(items: Seq<Val>, done: Seq<Item>)
    ensures
        list_of(items, done) matches Ok(bs) ==> {
            &&& bs.len() == done.len() + items.len()
            &&& bs.take(done.len() as int) == done
            &&& forall|i: int|
                0 <= i < items.len() ==> item_of(#[trigger] items[i], false) == Ok::<
                    Item,
                    Seq<char>,
                >(bs[done.len() + i])
        },
    decreases items.len(),
{
    if items.len() == 0 {
        assert(done.take(done.len() as int) =~= done);
    } else if let Ok(bs) = list_of(items, done) {
        let b = item_of(items[0], false)->Ok_0;
        let next = done.push(b);
        let rest = items.skip(1);
        lemma_list(rest, next);
        assert(bs.take(next.len() as int)[done.len() as int] == b);
        assert(bs.take(done.len() as int) =~= done) by {
            assert forall|i: int| 0 <= i < done.len() implies bs[i] == done[i] by {
                assert(bs.take(next.len() as int)[i] == next[i]);
            }
        }
        assert forall|i: int| 0 <= i < items.len() implies item_of(#[trigger] items[i], false)
            == Ok::<Item, Seq<char>>(bs[done.len() + i]) by {
            if i > 0 {
                assert(items[i] == rest[i - 1]);
                assert(next.len() + (i - 1) == done.len() + i);
            }
        }
    }
}

/// The array of a sequence has an element for every element, in their order, each
/// what that one becomes.
pub proof fn law_arrays_hold_their_sequences(t: Tab)
    ensures
        table_item(t) matches Ok(Item::Array(bs)) ==> {
            &&& bs.len() == t.array.len()
            &&& forall|i: int|
                0 <= i < bs.len() ==> item_of(t.array[i], false) == Ok::<Item, Seq<char>>(
                    #[trigger] bs[i],
                )
        },
{
    lemma_list(t.array, Seq::empty());
    if let Ok(Item::Array(bs)) = table_item(t) {
        assert forall|i: int| 0 <= i < bs.len() implies item_of(t.array[i], false) == Ok::<
            Item,
            Seq<char>,
        >(#[trigger] bs[i]) by {
            assert(item_of(t.array[i], false) == Ok::<Item, Seq<char>>(bs[0 + i]));
        }
    }
}

/// What document values become in Lua: null nil, switches and numbers themselves,
/// text and bytes strings, ids their digits. A kind without a Lua form is refused
/// and leaves nothing.
pub proof fn law_document_values_become_lua(b: Item)
    ensures
        match b {
            Item::Null => lua_of(b) == Ok::<Val, Cut>(Val::Nil),
            Item::Boolean(x) => lua_of(b) == Ok::<Val, Cut>(Val::Bool(x)),
            Item::Double(bits) => lua_of(b) == Ok::<Val, Cut>(Val::Num(bits, Seq::empty())),
            Item::Int32(i) => lua_of(b) == Ok::<Val, Cut>(Val::Int(i as i64)),
            Item::Int64(i) => lua_of(b) == Ok::<Val, Cut>(Val::Int(i)),
            Item::String(s) => lua_of(b) == Ok::<Val, Cut>(Val::Str(encode_utf8(s), None)),
            Item::Binary(x) => lua_of(b) == Ok::<Val, Cut>(Val::Str(x, None)),
            Item::ObjectId(id) => lua_of(b) == Ok::<Val, Cut>(
                Val::Str(encode_utf8(hex_bytes(id)), None),
            ),
            Item::Other(text) => lua_of(b) matches Err(c) && c.left.len() == 0 && c.message
                == "Unsupported BSON type: "@ + text,
            Item::Array(_) => lua_of(b) is Ok ==> lua_of(b)->Ok_0 is Table,
            Item::Document(_) => lua_of(b) is Ok ==> lua_of(b)->Ok_0 is Table,
            _ => lua_of(b) is Ok && lua_of(b)->Ok_0 is Str,
        },
{
}

proof fn lemma_lua_elements(items: Seq<Item>, done: Seq<Val>)
    ensures
        lua_elements(items, done) matches Ok(vs) ==> {
            &&& vs.len() == done.len() + items.len()
            &&& vs.take(done.len() as int) == done
            &&& forall|i: int|
                0 <= i < items.len() ==> lua_of(#[trigger] items[i]) == Ok::<Val, Cut>(
                    vs[done.len() + i],
                )
        },
    decreases items.len(),
{
    if items.len() == 0 {
        assert(done.take(done.len() as int) =~= done);
    } else if let Ok(vs) = lua_elements(items, done) {
        let v = lua_of(items[0])->Ok_0;
        let next = done.push(v);
        let rest = items.skip(1);
        lemma_lua_elements(rest, next);
        assert(vs.take(next.len() as int)[done.len() as int] == v);
        assert(vs.take(done.len() as int) =~= done) by {
            assert forall|i: int| 0 <= i < done.len() implies vs[i] == done[i] by {
                assert(vs.take(next.len() as int)[i] == next[i]);
            }
        }
        assert forall|i: int| 0 <= i < items.len() implies lua_of(#[trigger] items[i]) == Ok::<
            Val,
            Cut,
        >(vs[done.len() + i]) by {
            if i > 0 {
                assert(items[i] == rest[i - 1]);
                assert(next.len() + (i - 1) == done.len() + i);
            }
        }
    }
}

/// The elements of an array come in their order, each as what it becomes.
pub proof fn law_array_elements_come_in_order(items: Seq<Item>)
    ensures
        lua_elements(items, Seq::empty()) matches Ok(vs) ==> {
            &&& vs.len() == items.len()
            &&& forall|i: int|
                0 <= i < vs.len() ==> lua_of(items[i]) == Ok::<Val, Cut>(#[trigger] vs[i])
        },
{
    lemma_lua_elements(items, Seq::empty());
    if let Ok(vs) = lua_elements(items, Seq::empty()) {
        assert forall|i: int| 0 <= i < vs.len() implies lua_of(items[i]) == Ok::<Val, Cut>(
            #[trigger] vs[i],
        ) by {
            assert(lua_of(items[i]) == Ok::<Val, Cut>(vs[0 + i]));
        }
    }
}

/// A table that has string keys alone.
spec fn string_keyed(t: Tab) -> bool {
    &&& t.array.len() == 0
    &&& distinct_keys(t.hash)
    &&& forall|i: int| 0 <= i < t.hash.len() ==> (#[trigger] t.hash[i]).0 is Str
}

/// Setting a string key in such a table.
proof fn lemma_string_set(t: Tab, b: Seq<u8>, v: Val, other: Seq<u8>)
    requires
        string_keyed(t),
    ensures
        string_keyed(t.set(Val::Str(b, None), v)),
        t.set(Val::Str(b, None), v).get(Val::Str(b, None)) == v,
        other != b ==> t.set(Val::Str(b, None), v).get(Val::Str(other, None)) == t.get(
            Val::Str(other, None),
        ),
{
    let k = Val::Str(b, None);
    let o = Val::Str(other, None);
    let u = t.set(k, v);
    let j = find(t.hash, k);
    lemma_find(t.hash, k);
    lemma_find(t.hash, o);
    lemma_find(u.hash, k);
    lemma_find(u.hash, o);
    assert forall|i: int| 0 <= i < u.hash.len() implies (#[trigger] u.hash[i]).0 is Str by {
        if v is Nil && j >= 0 {
            assert(u.hash[i] == if i < j {
                t.hash[i]
            } else {
                t.hash[i + 1]
            });
        } else if i < t.hash.len() {
            assert(u.hash[i].0 == t.hash[i].0);
        }
    }
    assert(distinct_keys(u.hash)) by {
        assert forall|x: int, y: int| 0 <= x < y < u.hash.len() implies !raw_equal(
            (#[trigger] u.hash[x]).0,
            (#[trigger] u.hash[y]).0,
        ) by {
            if v is Nil && j >= 0 {
                let a = if x < j {
                    x
                } else {
                    x + 1
                };
                let c = if y < j {
                    y
                } else {
                    y + 1
                };
                assert(!raw_equal(t.hash[a].0, t.hash[c].0));
            } else if y < t.hash.len() {
                assert(!raw_equal(t.hash[x].0, t.hash[y].0));
            } else {
                assert(!raw_equal(t.hash[x].0, k));
            }
        }
    }
    let fk = find(u.hash, k);
    let fo = find(u.hash, o);
    let to = find(t.hash, o);
    if j >= 0 {
        if v is Nil {
            if fk >= 0 {
                let a = if fk < j {
                    fk
                } else {
                    fk + 1
                };
                assert(u.hash[fk] == t.hash[a]);
                if a < j {
                    assert(!raw_equal(t.hash[a].0, t.hash[j].0));
                } else {
                    assert(!raw_equal(t.hash[j].0, t.hash[a].0));
                }
            }
            if other != b {
                if to >= 0 {
                    let x = if to < j {
                        to
                    } else {
                        to - 1
                    };
                    assert(u.hash[x] == t.hash[to]);
                    if fo != x && fo >= 0 {
                        if fo < x {
                            assert(!raw_equal(u.hash[fo].0, u.hash[x].0));
                        } else {
                            assert(!raw_equal(u.hash[x].0, u.hash[fo].0));
                        }
                    }
                } else if fo >= 0 {
                    let a = if fo < j {
                        fo
                    } else {
                        fo + 1
                    };
                    assert(u.hash[fo] == t.hash[a]);
                }
            }
        } else {
            assert(u.hash[j].0 == t.hash[j].0);
            if fk >= 0 && fk != j {
                if fk < j {
                    assert(!raw_equal(u.hash[fk].0, u.hash[j].0));
                } else {
                    assert(!raw_equal(u.hash[j].0, u.hash[fk].0));
                }
            }
            if other != b {
                if to >= 0 {
                    assert(u.hash[to] == t.hash[to]);
                    if fo >= 0 && fo != to {
                        if fo < to {
                            assert(!raw_equal(u.hash[fo].0, u.hash[to].0));
                        } else {
                            assert(!raw_equal(u.hash[to].0, u.hash[fo].0));
                        }
                    }
                } else if fo >= 0 {
                    assert(u.hash[fo].0 == t.hash[fo].0);
                }
            }
        }
    } else if !(v is Nil) {
        let last = t.hash.len() as int;
        assert(u.hash[last] == (k, v));
        if fk >= 0 && fk != last {
            assert(u.hash[fk] == t.hash[fk]);
        }
        if other != b {
            if to >= 0 {
                assert(u.hash[to] == t.hash[to]);
                if fo >= 0 && fo != to {
                    if fo < to {
                        assert(!raw_equal(u.hash[fo].0, u.hash[to].0));
                    } else {
                        assert(!raw_equal(u.hash[to].0, u.hash[fo].0));
                    }
                }
            } else if fo >= 0 && fo < last {
                assert(u.hash[fo] == t.hash[fo]);
            }
        }
    }
}

proof fn lemma_fields_got(d: Seq<(Seq<char>, Item)>, t: Tab)
    requires
        distinct(d),
        string_keyed(t),
    ensures
        lua_fields(d, t) matches Ok(u) ==> {
            &&& string_keyed(u)
            &&& forall|i: int|
                0 <= i < d.len() ==> lua_of((#[trigger] d[i]).1) == Ok::<Val, Cut>(
                    u.get(Val::Str(encode_utf8(d[i].0), None)),
                )
            &&& forall|key: Seq<char>|
                (forall|i: int| 0 <= i < d.len() ==> (#[trigger] d[i]).0 != key)
                    ==> u.get(Val::Str(#[trigger] encode_utf8(key), None)) == t.get(
                    Val::Str(encode_utf8(key), None),
                )
        },
    decreases d.len(),
{
    if d.len() > 0 {
        if let Ok(u) = lua_fields(d, t) {
            let rest = d.skip(1);
            let b = encode_utf8(d[0].0);
            let v = lua_of(d[0].1)->Ok_0;
            let next = t.set(Val::Str(b, None), v);
            lemma_string_set(t, b, v, b);
            assert forall|i: int, j: int| 0 <= i < j < rest.len() implies (#[trigger] rest[i]).0 != (
            #[trigger] rest[j]).0 by {
                assert(rest[i] == d[i + 1]);
                assert(rest[j] == d[j + 1]);
            }
            lemma_fields_got(rest, next);
            assert forall|i: int| 0 <= i < rest.len() implies (#[trigger] rest[i]).0 != d[0].0 by {
                assert(rest[i] == d[i + 1]);
                assert(d[0].0 != d[i + 1].0);
            }
            assert(u.get(Val::Str(encode_utf8(d[0].0), None)) == next.get(Val::Str(b, None)));
            assert forall|i: int| 0 <= i < d.len() implies lua_of((#[trigger] d[i]).1) == Ok::<
                Val,
                Cut,
            >(u.get(Val::Str(encode_utf8(d[i].0), None))) by {
                if i > 0 {
                    assert(d[i] == rest[i - 1]);
                }
            }
            assert forall|key: Seq<char>|
                (forall|i: int| 0 <= i < d.len() ==> (#[trigger] d[i]).0 != key) implies u.get(
                Val::Str(#[trigger] encode_utf8(key), None),
            ) == t.get(Val::Str(encode_utf8(key), None)) by {
                assert(d[0].0 != key);
                assert forall|i: int| 0 <= i < rest.len() implies (#[trigger] rest[i]).0 != key by {
                    assert(rest[i] == d[i + 1]);
                }
                encode_utf8_decode_utf8(key);
                encode_utf8_decode_utf8(d[0].0);
                lemma_string_set(t, b, v, encode_utf8(key));
            }
        }
    }
}

/// The table of a document has under every key what the value there becomes, and
/// nothing under any other text.
pub proof fn law_tables_hold_their_documents(d: Seq<(Seq<char>, Item)>)
    requires
        distinct(d),
    ensures
        lua_fields(d, Tab::empty()) matches Ok(t) ==> {
            &&& t.array.len() == 0
            &&& forall|i: int|
                0 <= i < d.len() ==> lua_of((#[trigger] d[i]).1) == Ok::<Val, Cut>(
                    t.get(Val::Str(encode_utf8(d[i].0), None)),
                )
            &&& forall|key: Seq<char>|
                (forall|i: int| 0 <= i < d.len() ==> (#[trigger] d[i]).0 != key) ==> t.get(
                    Val::Str(#[trigger] encode_utf8(key), None),
                ) is Nil
        },
{
    lemma_fields_got(d, Tab::empty());
    assert forall|key: Seq<char>| Tab::empty().get(Val::Str(#[trigger] encode_utf8(key), None)) is Nil by {
        lemma_find(Tab::empty().hash, Val::Str(encode_utf8(key), None));
    }
}

proof fn lemma_entries_taken(es: Seq<(Val, Val)>, done: Seq<(Seq<char>, Item)>)
    ensures
        doc_entries(es, done) is Ok <==> forall|i: int|
            0 <= i < es.len() ==> doc_key((#[trigger] es[i]).0) is Ok && entry_item(es[i]) is Ok,
    decreases es.len(),
{
    if es.len() > 0 {
        let rest = es.skip(1);
        if doc_key(es[0].0) is Ok && entry_item(es[0]) is Ok {
            let key = doc_key(es[0].0)->Ok_0;
            lemma_entries_taken(rest, with_key(done, key, entry_item(es[0])->Ok_0));
            if doc_entries(es, done) is Ok {
                assert forall|i: int| 0 <= i < es.len() implies doc_key((#[trigger] es[i]).0) is Ok
                    && entry_item(es[i]) is Ok by {
                    if i > 0 {
                        assert(es[i] == rest[i - 1]);
                    }
                }
            } else {
                assert(!(forall|i: int|
                    0 <= i < rest.len() ==> doc_key((#[trigger] rest[i]).0) is Ok && entry_item(
                        rest[i],
                    ) is Ok));
                let i = choose|i: int|
                    0 <= i < rest.len() && !(doc_key((#[trigger] rest[i]).0) is Ok && entry_item(
                        rest[i],
                    ) is Ok);
                assert(es[i + 1] == rest[i]);
            }
        } else {
            assert(!(doc_key(es[0].0) is Ok && entry_item(es[0]) is Ok));
        }
    }
}

proof fn lemma_elements_taken(items: Seq<Val>, i: nat, done: Seq<(Seq<char>, Item)>)
    ensures
        doc_elements(items, i, done) is Ok <==> forall|k: int|
            0 <= k < items.len() && !((#[trigger] items[k]) is Nil) ==> item_of(items[k], false)
                is Ok,
    decreases items.len(),
{
    if items.len() > 0 {
        let rest = items.skip(1);
        if items[0] is Nil || item_of(items[0], false) is Ok {
            let next = if items[0] is Nil {
                done
            } else {
                with_key(done, decimal(signed64(i)), item_of(items[0], false)->Ok_0)
            };
            lemma_elements_taken(rest, i + 1, next);
            if doc_elements(items, i, done) is Ok {
                assert forall|k: int|
                    0 <= k < items.len() && !((#[trigger] items[k]) is Nil) implies item_of(
                    items[k],
                    false,
                ) is Ok by {
                    if k > 0 {
                        assert(items[k] == rest[k - 1]);
                    }
                }
            } else {
                let k = choose|k: int|
                    0 <= k < rest.len() && !((#[trigger] rest[k]) is Nil) && !(item_of(
                        rest[k],
                        false,
                    ) is Ok);
                assert(items[k + 1] == rest[k]);
            }
        }
    }
}

/// A table is a document exactly where every key has a text and every value has a
/// place in documents.
pub proof fn law_tables_of_document_values_are_documents(t: Tab)
    ensures
        doc_of(t) is Ok <==> (forall|i: int|
            0 <= i < t.hash.len() ==> doc_key((#[trigger] t.hash[i]).0) is Ok && entry_item(
                t.hash[i],
            ) is Ok) && (forall|k: int|
            0 <= k < t.array.len() && !((#[trigger] t.array[k]) is Nil) ==> item_of(
                t.array[k],
                false,
            ) is Ok),
{
    lemma_elements_taken(t.array, 1, Seq::empty());
    if let Ok(d) = doc_elements(t.array, 1, Seq::empty()) {
        lemma_entries_taken(t.hash, d);
    }
}

proof fn lemma_list_taken(items: Seq<Val>, done: Seq<Item>)
    ensures
        list_of(items, done) is Ok <==> forall|k: int|
            0 <= k < items.len() ==> item_of(#[trigger] items[k], false) is Ok,
    decreases items.len(),
{
    if items.len() > 0 {
        let rest = items.skip(1);
        if item_of(items[0], false) is Ok {
            lemma_list_taken(rest, done.push(item_of(items[0], false)->Ok_0));
            if list_of(items, done) is Ok {
                assert forall|k: int| 0 <= k < items.len() implies item_of(
                    #[trigger] items[k],
                    false,
                ) is Ok by {
                    if k > 0 {
                        assert(items[k] == rest[k - 1]);
                    }
                }
            } else {
                let k = choose|k: int|
                    0 <= k < rest.len() && !(item_of(#[trigger] rest[k], false) is Ok);
                assert(items[k + 1] == rest[k]);
            }
        }
    }
}

/// A sequence is an array exactly where all its elements have a place in documents.
pub proof fn law_sequences_of_document_values_are_arrays(t: Tab)
    requires
        machine_form(t),
        is_sequence(t),
        t.array.len() > 0,
    ensures
        table_item(t) is Ok <==> forall|k: int|
            0 <= k < t.array.len() ==> item_of(#[trigger] t.array[k], false) is Ok,
{
    law_strict_length_means_contiguous(t);
    lemma_list_taken(t.array, Seq::empty());
}

} // verus!
