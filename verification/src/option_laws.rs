//! What options give back of the tables that they are read from.
use vstd::prelude::*;
use vstd::string::*;
use vstd::utf8::*;

use crate::bson::{doc_of, Item};
use crate::laux::field_key;
use crate::mongo_options::{
    create_set, find_set, index_set, set_create, set_find, set_index, CreateSet, CursorType,
    FindSet, IndexSet,
};
use crate::table_laws::tidy;
use crate::text::lossy_text;
use crate::value::{array_entries, find, lemma_find, Tab, Val};

verus! {

/// The value of the entry with a string key, if there is one.
spec fn named(es: Seq<(Val, Val)>, name: Seq<u8>) -> Option<Val>
    decreases es.len(),
{
    if es.len() == 0 {
        None
    } else if es[0].0 matches Val::Str(b, _) && b == name {
        Some(es[0].1)
    } else {
        named(es.skip(1), name)
    }
}

/// No string key occurs twice.
spec fn names_differ(es: Seq<(Val, Val)>) -> bool {
    forall|i: int, j: int|
        0 <= i < j < es.len() && (#[trigger] es[i]).0 is Str && (#[trigger] es[j]).0 is Str
            ==> es[i].0->Str_0 != es[j].0->Str_0
}

proof fn lemma_named(es: Seq<(Val, Val)>, name: Seq<u8>)
    ensures
        match named(es, name) {
            Some(v) => exists|i: int|
                0 <= i < es.len() && (#[trigger] es[i]).0 is Str && es[i].0->Str_0 == name && es[i].1
                    == v,
            None => forall|i: int|
                0 <= i < es.len() && (#[trigger] es[i]).0 is Str ==> es[i].0->Str_0 != name,
        },
    decreases es.len(),
{
    if es.len() > 0 {
        let rest = es.skip(1);
        lemma_named(rest, name);
        if !(es[0].0 matches Val::Str(b, _) && b == name) {
            match named(rest, name) {
                Some(v) => {
                    let i = choose|i: int|
                        0 <= i < rest.len() && (#[trigger] rest[i]).0 is Str && rest[i].0->Str_0
                            == name && rest[i].1 == v;
                    assert(es[i + 1] == rest[i]);
                },
                None => {
                    assert forall|i: int|
                        0 <= i < es.len() && (#[trigger] es[i]).0 is Str implies es[i].0->Str_0
                        != name by {
                        if i > 0 {
                            assert(es[i] == rest[i - 1]);
                        }
                    }
                },
            }
        }
    }
}

/// Without the first entry, no string key occurs twice either, nor does that of
/// the first entry.
proof fn lemma_rest_differs(es: Seq<(Val, Val)>)
    requires
        names_differ(es),
        es.len() > 0,
    ensures
        names_differ(es.skip(1)),
        es[0].0 is Str ==> named(es.skip(1), es[0].0->Str_0) is None,
{
    let rest = es.skip(1);
    assert forall|i: int, j: int|
        0 <= i < j < rest.len() && (#[trigger] rest[i]).0 is Str && (#[trigger] rest[j]).0 is Str
        implies rest[i].0->Str_0 != rest[j].0->Str_0 by {
        assert(rest[i] == es[i + 1]);
        assert(rest[j] == es[j + 1]);
    }
    if es[0].0 is Str {
        let name = es[0].0->Str_0;
        lemma_named(rest, name);
        if named(rest, name) is Some {
            let i = choose|i: int|
                0 <= i < rest.len() && (#[trigger] rest[i]).0 is Str && rest[i].0->Str_0 == name;
            assert(es[i + 1] == rest[i]);
        }
    }
}

proof fn lemma_array_entries(array: Seq<Val>)
    ensures
        forall|i: int|
            0 <= i < array_entries(array).len() ==> (#[trigger] array_entries(array)[i]).0 is Int,
    decreases array.len(),
{
    if array.len() > 0 {
        lemma_array_entries(array.drop_last());
    }
}

/// What the entries have under a name is what the table has there.
proof fn lemma_table_names(t: Tab, name: Seq<u8>)
    requires
        tidy(t),
    ensures
        names_differ(t.entries()),
        match named(t.entries(), name) {
            Some(v) => t.get(Val::Str(name, None)) == v,
            None => t.get(Val::Str(name, None)) is Nil,
        },
{
    let front = array_entries(t.array);
    let es = t.entries();
    let k = Val::Str(name, None);
    lemma_array_entries(t.array);
    lemma_find(t.hash, k);
    lemma_named(es, name);
    assert forall|i: int| 0 <= i < es.len() && (#[trigger] es[i]).0 is Str implies front.len() <= i
        && es[i] == t.hash[i - front.len()] by {
        if i < front.len() {
            assert(es[i] == front[i]);
        }
    }
    assert forall|i: int, j: int|
        0 <= i < j < es.len() && (#[trigger] es[i]).0 is Str && (#[trigger] es[j]).0 is Str
        implies es[i].0->Str_0 != es[j].0->Str_0 by {
        assert(es[i] == t.hash[i - front.len()]);
        assert(es[j] == t.hash[j - front.len()]);
    }
    let f = find(t.hash, k);
    match named(es, name) {
        Some(v) => {
            let i = choose|i: int|
                0 <= i < es.len() && (#[trigger] es[i]).0 is Str && es[i].0->Str_0 == name && es[i].1
                    == v;
            let h = i - front.len();
            assert(es[i] == t.hash[h]);
            if f >= 0 && f != h {
                if f < h {
                    assert(t.hash[f].0->Str_0 != t.hash[h].0->Str_0);
                } else {
                    assert(t.hash[h].0->Str_0 != t.hash[f].0->Str_0);
                }
            }
        },
        None => {
            if f >= 0 {
                assert(es[front.len() + f] == t.hash[f]);
            }
        },
    }
}

/// How an integer option follows from a value: an integer is taken as it is.
pub open spec fn reads_int(v: Val, o: Option<i64>) -> bool {
    match v {
        Val::Int(i) => o == Some(i),
        _ => o is None,
    }
}

/// How an unsigned option follows from a value: an integer is brought into range
/// by whole turns, so that one in the range is taken as it is.
pub open spec fn reads_u64(v: Val, o: Option<u64>) -> bool {
    match v {
        Val::Int(i) => o matches Some(n) && n == i as int % 0x1_0000_0000_0000_0000,
        _ => o is None,
    }
}

/// How a short unsigned option follows from a value.
pub open spec fn reads_u32(v: Val, o: Option<u32>) -> bool {
    match v {
        Val::Int(i) => o matches Some(n) && n == i as int % 0x1_0000_0000,
        _ => o is None,
    }
}

/// How a switch follows from a value.
pub open spec fn reads_bool(v: Val, o: Option<bool>) -> bool {
    match v {
        Val::Bool(b) => o == Some(b),
        _ => o is None,
    }
}

/// How a text option follows from a value.
pub open spec fn reads_text(v: Val, o: Option<Seq<char>>) -> bool {
    match v {
        Val::Str(b, _) => o == Some(lossy_text(b)),
        _ => o is None,
    }
}

/// How a float option follows from a value.
pub open spec fn reads_float(v: Val, o: Option<u64>) -> bool {
    match v {
        Val::Num(bits, _) => o == Some(bits),
        _ => o is None,
    }
}

/// How a document option follows from a value.
pub open spec fn reads_doc(v: Val, o: Option<Seq<(Seq<char>, Item)>>) -> bool {
    match v {
        Val::Table(t) => doc_of(t) matches Ok(d) && o == Some(d),
        Val::Nil => o is None,
        _ => false,
    }
}

/// How the cursor type follows from a value.
pub open spec fn reads_cursor(v: Val, o: Option<CursorType>) -> bool {
    match v {
        Val::Str(b, _) => match o {
            Some(CursorType::NonTailable) => b == "NonTailable".spec_bytes(),
            Some(CursorType::Tailable) => b == "Tailable".spec_bytes(),
            Some(CursorType::TailableAwait) => b == "TailableAwait".spec_bytes(),
            None => false,
        },
        _ => o is None,
    }
}

/// The names of cursor types, told apart.
proof fn lemma_cursor_names()
    ensures
        "NonTailable".spec_bytes() != "Tailable".spec_bytes(),
        "NonTailable".spec_bytes() != "TailableAwait".spec_bytes(),
        "Tailable".spec_bytes() != "TailableAwait".spec_bytes(),
{
    reveal_strlit("NonTailable");
    reveal_strlit("Tailable");
    reveal_strlit("TailableAwait");
    encode_utf8_decode_utf8("NonTailable"@);
    encode_utf8_decode_utf8("Tailable"@);
    encode_utf8_decode_utf8("TailableAwait"@);
}

/// The names of find options, told apart.
proof fn lemma_find_names()
    ensures
        "limit".spec_bytes() != "skip".spec_bytes(),
        "limit".spec_bytes() != "sort".spec_bytes(),
        "limit".spec_bytes() != "projection".spec_bytes(),
        "limit".spec_bytes() != "max_time".spec_bytes(),
        "limit".spec_bytes() != "batch_size".spec_bytes(),
        "limit".spec_bytes() != "allow_partial_results".spec_bytes(),
        "limit".spec_bytes() != "no_cursor_timeout".spec_bytes(),
        "limit".spec_bytes() != "cursor_type".spec_bytes(),
        "limit".spec_bytes() != "read_concern".spec_bytes(),
        "skip".spec_bytes() != "sort".spec_bytes(),
        "skip".spec_bytes() != "projection".spec_bytes(),
        "skip".spec_bytes() != "max_time".spec_bytes(),
        "skip".spec_bytes() != "batch_size".spec_bytes(),
        "skip".spec_bytes() != "allow_partial_results".spec_bytes(),
        "skip".spec_bytes() != "no_cursor_timeout".spec_bytes(),
        "skip".spec_bytes() != "cursor_type".spec_bytes(),
        "skip".spec_bytes() != "read_concern".spec_bytes(),
        "sort".spec_bytes() != "projection".spec_bytes(),
        "sort".spec_bytes() != "max_time".spec_bytes(),
        "sort".spec_bytes() != "batch_size".spec_bytes(),
        "sort".spec_bytes() != "allow_partial_results".spec_bytes(),
        "sort".spec_bytes() != "no_cursor_timeout".spec_bytes(),
        "sort".spec_bytes() != "cursor_type".spec_bytes(),
        "sort".spec_bytes() != "read_concern".spec_bytes(),
        "projection".spec_bytes() != "max_time".spec_bytes(),
        "projection".spec_bytes() != "batch_size".spec_bytes(),
        "projection".spec_bytes() != "allow_partial_results".spec_bytes(),
        "projection".spec_bytes() != "no_cursor_timeout".spec_bytes(),
        "projection".spec_bytes() != "cursor_type".spec_bytes(),
        "projection".spec_bytes() != "read_concern".spec_bytes(),
        "max_time".spec_bytes() != "batch_size".spec_bytes(),
        "max_time".spec_bytes() != "allow_partial_results".spec_bytes(),
        "max_time".spec_bytes() != "no_cursor_timeout".spec_bytes(),
        "max_time".spec_bytes() != "cursor_type".spec_bytes(),
        "max_time".spec_bytes() != "read_concern".spec_bytes(),
        "batch_size".spec_bytes() != "allow_partial_results".spec_bytes(),
        "batch_size".spec_bytes() != "no_cursor_timeout".spec_bytes(),
        "batch_size".spec_bytes() != "cursor_type".spec_bytes(),
        "batch_size".spec_bytes() != "read_concern".spec_bytes(),
        "allow_partial_results".spec_bytes() != "no_cursor_timeout".spec_bytes(),
        "allow_partial_results".spec_bytes() != "cursor_type".spec_bytes(),
        "allow_partial_results".spec_bytes() != "read_concern".spec_bytes(),
        "no_cursor_timeout".spec_bytes() != "cursor_type".spec_bytes(),
        "no_cursor_timeout".spec_bytes() != "read_concern".spec_bytes(),
        "cursor_type".spec_bytes() != "read_concern".spec_bytes(),
{
    reveal_strlit("limit");
    encode_utf8_decode_utf8("limit"@);
    reveal_strlit("skip");
    encode_utf8_decode_utf8("skip"@);
    reveal_strlit("sort");
    encode_utf8_decode_utf8("sort"@);
    reveal_strlit("projection");
    encode_utf8_decode_utf8("projection"@);
    reveal_strlit("max_time");
    encode_utf8_decode_utf8("max_time"@);
    reveal_strlit("batch_size");
    encode_utf8_decode_utf8("batch_size"@);
    reveal_strlit("allow_partial_results");
    encode_utf8_decode_utf8("allow_partial_results"@);
    reveal_strlit("no_cursor_timeout");
    encode_utf8_decode_utf8("no_cursor_timeout"@);
    reveal_strlit("cursor_type");
    encode_utf8_decode_utf8("cursor_type"@);
    reveal_strlit("read_concern");
    encode_utf8_decode_utf8("read_concern"@);
    assert("skip"@[1] != "sort"@[1]);
    assert("projection"@[0] != "batch_size"@[0]);
}

/// Whether an entry under a string key is taken as one of the find options.
pub open spec fn find_taken(name: Seq<u8>, v: Val) -> bool {
    ||| name == "limit".spec_bytes()
    ||| name == "skip".spec_bytes()
    ||| name == "sort".spec_bytes() && (v matches Val::Table(t) && doc_of(t) is Ok)
    ||| name == "projection".spec_bytes() && (v matches Val::Table(t) && doc_of(t) is Ok)
    ||| name == "max_time".spec_bytes()
    ||| name == "batch_size".spec_bytes()
    ||| name == "allow_partial_results".spec_bytes()
    ||| name == "no_cursor_timeout".spec_bytes()
    ||| name == "cursor_type".spec_bytes() && (v matches Val::Str(b, _) ==> b
        == "NonTailable".spec_bytes() || b == "Tailable".spec_bytes() || b
        == "TailableAwait".spec_bytes())
    ||| name == "read_concern".spec_bytes()
}

proof fn lemma_find_taken(es: Seq<(Val, Val)>, o: FindSet)
    ensures
        find_set(es, o) is Ok <==> forall|i: int|
            0 <= i < es.len() && (#[trigger] es[i]).0 is Str ==> find_taken(
                es[i].0->Str_0,
                es[i].1,
            ),
    decreases es.len(),
{
    lemma_find_names();
    lemma_cursor_names();
    if es.len() > 0 {
        let rest = es.skip(1);
        if let Val::Str(key, _) = es[0].0 {
            if let Ok(next) = set_find(o, key, es[0].1) {
                lemma_find_taken(rest, next);
            }
        } else {
            lemma_find_taken(rest, o);
        }
        if find_set(es, o) is Ok {
            assert forall|i: int|
                0 <= i < es.len() && (#[trigger] es[i]).0 is Str implies find_taken(
                es[i].0->Str_0,
                es[i].1,
            ) by {
                if i > 0 {
                    assert(es[i] == rest[i - 1]);
                }
            }
        }
        if forall|i: int|
            0 <= i < es.len() && (#[trigger] es[i]).0 is Str ==> find_taken(
                es[i].0->Str_0,
                es[i].1,
            ) {
            assert(es[0].0 is Str ==> find_taken(es[0].0->Str_0, es[0].1));
            assert forall|i: int|
                0 <= i < rest.len() && (#[trigger] rest[i]).0 is Str implies find_taken(
                rest[i].0->Str_0,
                rest[i].1,
            ) by {
                assert(rest[i] == es[i + 1]);
            }
        }
    }
}

proof fn lemma_find_limit(es: Seq<(Val, Val)>, o: FindSet)
    requires
        names_differ(es),
    ensures
        find_set(es, o) matches Ok(n) ==> {
            &&& match named(es, "limit".spec_bytes()) {
                Some(Val::Int(i)) => reads_int(Val::Int(i), n.limit),
                _ => n.limit == o.limit,
            }
            &&& match named(es, "skip".spec_bytes()) {
                Some(Val::Int(i)) => reads_u64(Val::Int(i), n.skip),
                _ => n.skip == o.skip,
            }
            &&& match named(es, "sort".spec_bytes()) {
                Some(v) => reads_doc(v, n.sort) && !(v is Nil),
                None => n.sort == o.sort,
            }
        },
    decreases es.len(),
{
    lemma_find_names();
    lemma_cursor_names();
    if es.len() > 0 {
        let rest = es.skip(1);
        lemma_rest_differs(es);
        if let Val::Str(key, _) = es[0].0 {
            if let Ok(next) = set_find(o, key, es[0].1) {
                lemma_find_limit(rest, next);
            }
        } else {
            lemma_find_limit(rest, o);
        }
    }
}

proof fn lemma_find_projection(es: Seq<(Val, Val)>, o: FindSet)
    requires
        names_differ(es),
    ensures
        find_set(es, o) matches Ok(n) ==> {
            &&& match named(es, "projection".spec_bytes()) {
                Some(v) => reads_doc(v, n.projection) && !(v is Nil),
                None => n.projection == o.projection,
            }
            &&& match named(es, "max_time".spec_bytes()) {
                Some(Val::Int(i)) => reads_u64(Val::Int(i), n.max_time),
                _ => n.max_time == o.max_time,
            }
            &&& match named(es, "batch_size".spec_bytes()) {
                Some(Val::Int(i)) => reads_u32(Val::Int(i), n.batch_size),
                _ => n.batch_size == o.batch_size,
            }
        },
    decreases es.len(),
{
    lemma_find_names();
    lemma_cursor_names();
    if es.len() > 0 {
        let rest = es.skip(1);
        lemma_rest_differs(es);
        if let Val::Str(key, _) = es[0].0 {
            if let Ok(next) = set_find(o, key, es[0].1) {
                lemma_find_projection(rest, next);
            }
        } else {
            lemma_find_projection(rest, o);
        }
    }
}

proof fn lemma_find_allow_partial_results(es: Seq<(Val, Val)>, o: FindSet)
    requires
        names_differ(es),
    ensures
        find_set(es, o) matches Ok(n) ==> {
            &&& match named(es, "allow_partial_results".spec_bytes()) {
                Some(Val::Bool(i)) => reads_bool(Val::Bool(i), n.allow_partial_results),
                _ => n.allow_partial_results == o.allow_partial_results,
            }
            &&& match named(es, "no_cursor_timeout".spec_bytes()) {
                Some(Val::Bool(i)) => reads_bool(Val::Bool(i), n.no_cursor_timeout),
                _ => n.no_cursor_timeout == o.no_cursor_timeout,
            }
            &&& match named(es, "cursor_type".spec_bytes()) {
                Some(Val::Str(i, _)) => reads_cursor(Val::Str(i, None), n.cursor_type),
                _ => n.cursor_type == o.cursor_type,
            }
        },
    decreases es.len(),
{
    lemma_find_names();
    lemma_cursor_names();
    if es.len() > 0 {
        let rest = es.skip(1);
        lemma_rest_differs(es);
        if let Val::Str(key, _) = es[0].0 {
            if let Ok(next) = set_find(o, key, es[0].1) {
                lemma_find_allow_partial_results(rest, next);
            }
        } else {
            lemma_find_allow_partial_results(rest, o);
        }
    }
}

proof fn lemma_find_read_concern(es: Seq<(Val, Val)>, o: FindSet)
    requires
        names_differ(es),
    ensures
        find_set(es, o) matches Ok(n) ==> {
            &&& match named(es, "read_concern".spec_bytes()) {
                Some(Val::Str(i, _)) => reads_text(Val::Str(i, None), n.read_concern),
                _ => n.read_concern == o.read_concern,
            }
        },
    decreases es.len(),
{
    lemma_find_names();
    lemma_cursor_names();
    if es.len() > 0 {
        let rest = es.skip(1);
        lemma_rest_differs(es);
        if let Val::Str(key, _) = es[0].0 {
            if let Ok(next) = set_find(o, key, es[0].1) {
                lemma_find_read_concern(rest, next);
            }
        } else {
            lemma_find_read_concern(rest, o);
        }
    }
}

/// The options of a query are what the table has under their names: an integer
/// is the limit as it is, whatever its sign, other numbers are brought into their
/// range, a switch is on or off, and what is not there is not set. A table is
/// refused exactly where a string key is no option's name, a document option is
/// no table or cannot be a document, or the cursor type has no such name.
pub proof fn law_find_options_are_the_tables(t: Tab)
    requires
        tidy(t),
    ensures
        find_set(t.entries(), FindSet::unset()) is Ok <==> forall|i: int|
            0 <= i < t.entries().len() && (#[trigger] t.entries()[i]).0 is Str ==> find_taken(
                t.entries()[i].0->Str_0,
                t.entries()[i].1,
            ),
        find_set(t.entries(), FindSet::unset()) matches Ok(o) ==> {
            &&& reads_int(t.get(field_key("limit")), o.limit)
            &&& reads_u64(t.get(field_key("skip")), o.skip)
            &&& reads_doc(t.get(field_key("sort")), o.sort)
            &&& reads_doc(t.get(field_key("projection")), o.projection)
            &&& reads_u64(t.get(field_key("max_time")), o.max_time)
            &&& reads_u32(t.get(field_key("batch_size")), o.batch_size)
            &&& reads_bool(t.get(field_key("allow_partial_results")), o.allow_partial_results)
            &&& reads_bool(t.get(field_key("no_cursor_timeout")), o.no_cursor_timeout)
            &&& reads_cursor(t.get(field_key("cursor_type")), o.cursor_type)
            &&& reads_text(t.get(field_key("read_concern")), o.read_concern)
        },
{
    lemma_table_names(t, "limit".spec_bytes());
    lemma_table_names(t, "skip".spec_bytes());
    lemma_table_names(t, "sort".spec_bytes());
    lemma_table_names(t, "projection".spec_bytes());
    lemma_table_names(t, "max_time".spec_bytes());
    lemma_table_names(t, "batch_size".spec_bytes());
    lemma_table_names(t, "allow_partial_results".spec_bytes());
    lemma_table_names(t, "no_cursor_timeout".spec_bytes());
    lemma_table_names(t, "cursor_type".spec_bytes());
    lemma_table_names(t, "read_concern".spec_bytes());
    lemma_find_taken(t.entries(), FindSet::unset());
    lemma_find_limit(t.entries(), FindSet::unset());
    lemma_find_projection(t.entries(), FindSet::unset());
    lemma_find_allow_partial_results(t.entries(), FindSet::unset());
    lemma_find_read_concern(t.entries(), FindSet::unset());
}

/// Whether an entry under a string key is taken as one of the creation options.
pub open spec fn create_taken(name: Seq<u8>, v: Val) -> bool {
    ||| name == "max_time".spec_bytes()
}

proof fn lemma_create_taken(es: Seq<(Val, Val)>, o: CreateSet)
    ensures
        create_set(es, o) is Ok <==> forall|i: int|
            0 <= i < es.len() && (#[trigger] es[i]).0 is Str ==> create_taken(
                es[i].0->Str_0,
                es[i].1,
            ),
    decreases es.len(),
{
    if es.len() > 0 {
        let rest = es.skip(1);
        if let Val::Str(key, _) = es[0].0 {
            if let Ok(next) = set_create(o, key, es[0].1) {
                lemma_create_taken(rest, next);
            }
        } else {
            lemma_create_taken(rest, o);
        }
        if create_set(es, o) is Ok {
            assert forall|i: int|
                0 <= i < es.len() && (#[trigger] es[i]).0 is Str implies create_taken(
                es[i].0->Str_0,
                es[i].1,
            ) by {
                if i > 0 {
                    assert(es[i] == rest[i - 1]);
                }
            }
        }
        if forall|i: int|
            0 <= i < es.len() && (#[trigger] es[i]).0 is Str ==> create_taken(
                es[i].0->Str_0,
                es[i].1,
            ) {
            assert(es[0].0 is Str ==> create_taken(es[0].0->Str_0, es[0].1));
            assert forall|i: int|
                0 <= i < rest.len() && (#[trigger] rest[i]).0 is Str implies create_taken(
                rest[i].0->Str_0,
                rest[i].1,
            ) by {
                assert(rest[i] == es[i + 1]);
            }
        }
    }
}

proof fn lemma_create_max_time(es: Seq<(Val, Val)>, o: CreateSet)
    requires
        names_differ(es),
    ensures
        create_set(es, o) matches Ok(n) ==> {
            &&& match named(es, "max_time".spec_bytes()) {
                Some(Val::Int(i)) => reads_u64(Val::Int(i), n.max_time),
                _ => n.max_time == o.max_time,
            }
        },
    decreases es.len(),
{
    if es.len() > 0 {
        let rest = es.skip(1);
        lemma_rest_differs(es);
        if let Val::Str(key, _) = es[0].0 {
            if let Ok(next) = set_create(o, key, es[0].1) {
                lemma_create_max_time(rest, next);
            }
        } else {
            lemma_create_max_time(rest, o);
        }
    }
}

/// The options of the creation of an index are what the table has under their
/// names. A table is refused exactly where a string key is no option's name.
pub proof fn law_create_options_are_the_tables(t: Tab)
    requires
        tidy(t),
    ensures
        create_set(t.entries(), CreateSet::unset()) is Ok <==> forall|i: int|
            0 <= i < t.entries().len() && (#[trigger] t.entries()[i]).0 is Str ==> create_taken(
                t.entries()[i].0->Str_0,
                t.entries()[i].1,
            ),
        create_set(t.entries(), CreateSet::unset()) matches Ok(o) ==> {
            &&& reads_u64(t.get(field_key("max_time")), o.max_time)
        },
{
    lemma_table_names(t, "max_time".spec_bytes());
    lemma_create_taken(t.entries(), CreateSet::unset());
    lemma_create_max_time(t.entries(), CreateSet::unset());
}

/// The names of index options, told apart.
proof fn lemma_index_names()
    ensures
        "name".spec_bytes() != "unique".spec_bytes(),
        "name".spec_bytes() != "background".spec_bytes(),
        "name".spec_bytes() != "sparse".spec_bytes(),
        "name".spec_bytes() != "storage_engine".spec_bytes(),
        "name".spec_bytes() != "partial_filter_expression".spec_bytes(),
        "name".spec_bytes() != "wildcard_projection".spec_bytes(),
        "name".spec_bytes() != "hidden".spec_bytes(),
        "name".spec_bytes() != "default_language".spec_bytes(),
        "name".spec_bytes() != "language_override".spec_bytes(),
        "name".spec_bytes() != "weights".spec_bytes(),
        "name".spec_bytes() != "bits".spec_bytes(),
        "name".spec_bytes() != "max".spec_bytes(),
        "name".spec_bytes() != "min".spec_bytes(),
        "name".spec_bytes() != "bucket_size".spec_bytes(),
        "unique".spec_bytes() != "background".spec_bytes(),
        "unique".spec_bytes() != "sparse".spec_bytes(),
        "unique".spec_bytes() != "storage_engine".spec_bytes(),
        "unique".spec_bytes() != "partial_filter_expression".spec_bytes(),
        "unique".spec_bytes() != "wildcard_projection".spec_bytes(),
        "unique".spec_bytes() != "hidden".spec_bytes(),
        "unique".spec_bytes() != "default_language".spec_bytes(),
        "unique".spec_bytes() != "language_override".spec_bytes(),
        "unique".spec_bytes() != "weights".spec_bytes(),
        "unique".spec_bytes() != "bits".spec_bytes(),
        "unique".spec_bytes() != "max".spec_bytes(),
        "unique".spec_bytes() != "min".spec_bytes(),
        "unique".spec_bytes() != "bucket_size".spec_bytes(),
        "background".spec_bytes() != "sparse".spec_bytes(),
        "background".spec_bytes() != "storage_engine".spec_bytes(),
        "background".spec_bytes() != "partial_filter_expression".spec_bytes(),
        "background".spec_bytes() != "wildcard_projection".spec_bytes(),
        "background".spec_bytes() != "hidden".spec_bytes(),
        "background".spec_bytes() != "default_language".spec_bytes(),
        "background".spec_bytes() != "language_override".spec_bytes(),
        "background".spec_bytes() != "weights".spec_bytes(),
        "background".spec_bytes() != "bits".spec_bytes(),
        "background".spec_bytes() != "max".spec_bytes(),
        "background".spec_bytes() != "min".spec_bytes(),
        "background".spec_bytes() != "bucket_size".spec_bytes(),
        "sparse".spec_bytes() != "storage_engine".spec_bytes(),
        "sparse".spec_bytes() != "partial_filter_expression".spec_bytes(),
        "sparse".spec_bytes() != "wildcard_projection".spec_bytes(),
        "sparse".spec_bytes() != "hidden".spec_bytes(),
        "sparse".spec_bytes() != "default_language".spec_bytes(),
        "sparse".spec_bytes() != "language_override".spec_bytes(),
        "sparse".spec_bytes() != "weights".spec_bytes(),
        "sparse".spec_bytes() != "bits".spec_bytes(),
        "sparse".spec_bytes() != "max".spec_bytes(),
        "sparse".spec_bytes() != "min".spec_bytes(),
        "sparse".spec_bytes() != "bucket_size".spec_bytes(),
        "storage_engine".spec_bytes() != "partial_filter_expression".spec_bytes(),
        "storage_engine".spec_bytes() != "wildcard_projection".spec_bytes(),
        "storage_engine".spec_bytes() != "hidden".spec_bytes(),
        "storage_engine".spec_bytes() != "default_language".spec_bytes(),
        "storage_engine".spec_bytes() != "language_override".spec_bytes(),
        "storage_engine".spec_bytes() != "weights".spec_bytes(),
        "storage_engine".spec_bytes() != "bits".spec_bytes(),
        "storage_engine".spec_bytes() != "max".spec_bytes(),
        "storage_engine".spec_bytes() != "min".spec_bytes(),
        "storage_engine".spec_bytes() != "bucket_size".spec_bytes(),
        "partial_filter_expression".spec_bytes() != "wildcard_projection".spec_bytes(),
        "partial_filter_expression".spec_bytes() != "hidden".spec_bytes(),
        "partial_filter_expression".spec_bytes() != "default_language".spec_bytes(),
        "partial_filter_expression".spec_bytes() != "language_override".spec_bytes(),
        "partial_filter_expression".spec_bytes() != "weights".spec_bytes(),
        "partial_filter_expression".spec_bytes() != "bits".spec_bytes(),
        "partial_filter_expression".spec_bytes() != "max".spec_bytes(),
        "partial_filter_expression".spec_bytes() != "min".spec_bytes(),
        "partial_filter_expression".spec_bytes() != "bucket_size".spec_bytes(),
        "wildcard_projection".spec_bytes() != "hidden".spec_bytes(),
        "wildcard_projection".spec_bytes() != "default_language".spec_bytes(),
        "wildcard_projection".spec_bytes() != "language_override".spec_bytes(),
        "wildcard_projection".spec_bytes() != "weights".spec_bytes(),
        "wildcard_projection".spec_bytes() != "bits".spec_bytes(),
        "wildcard_projection".spec_bytes() != "max".spec_bytes(),
        "wildcard_projection".spec_bytes() != "min".spec_bytes(),
        "wildcard_projection".spec_bytes() != "bucket_size".spec_bytes(),
        "hidden".spec_bytes() != "default_language".spec_bytes(),
        "hidden".spec_bytes() != "language_override".spec_bytes(),
        "hidden".spec_bytes() != "weights".spec_bytes(),
        "hidden".spec_bytes() != "bits".spec_bytes(),
        "hidden".spec_bytes() != "max".spec_bytes(),
        "hidden".spec_bytes() != "min".spec_bytes(),
        "hidden".spec_bytes() != "bucket_size".spec_bytes(),
        "default_language".spec_bytes() != "language_override".spec_bytes(),
        "default_language".spec_bytes() != "weights".spec_bytes(),
        "default_language".spec_bytes() != "bits".spec_bytes(),
        "default_language".spec_bytes() != "max".spec_bytes(),
        "default_language".spec_bytes() != "min".spec_bytes(),
        "default_language".spec_bytes() != "bucket_size".spec_bytes(),
        "language_override".spec_bytes() != "weights".spec_bytes(),
        "language_override".spec_bytes() != "bits".spec_bytes(),
        "language_override".spec_bytes() != "max".spec_bytes(),
        "language_override".spec_bytes() != "min".spec_bytes(),
        "language_override".spec_bytes() != "bucket_size".spec_bytes(),
        "weights".spec_bytes() != "bits".spec_bytes(),
        "weights".spec_bytes() != "max".spec_bytes(),
        "weights".spec_bytes() != "min".spec_bytes(),
        "weights".spec_bytes() != "bucket_size".spec_bytes(),
        "bits".spec_bytes() != "max".spec_bytes(),
        "bits".spec_bytes() != "min".spec_bytes(),
        "bits".spec_bytes() != "bucket_size".spec_bytes(),
        "max".spec_bytes() != "min".spec_bytes(),
        "max".spec_bytes() != "bucket_size".spec_bytes(),
        "min".spec_bytes() != "bucket_size".spec_bytes(),
{
    reveal_strlit("name");
    encode_utf8_decode_utf8("name"@);
    reveal_strlit("unique");
    encode_utf8_decode_utf8("unique"@);
    reveal_strlit("background");
    encode_utf8_decode_utf8("background"@);
    reveal_strlit("sparse");
    encode_utf8_decode_utf8("sparse"@);
    reveal_strlit("storage_engine");
    encode_utf8_decode_utf8("storage_engine"@);
    reveal_strlit("partial_filter_expression");
    encode_utf8_decode_utf8("partial_filter_expression"@);
    reveal_strlit("wildcard_projection");
    encode_utf8_decode_utf8("wildcard_projection"@);
    reveal_strlit("hidden");
    encode_utf8_decode_utf8("hidden"@);
    reveal_strlit("default_language");
    encode_utf8_decode_utf8("default_language"@);
    reveal_strlit("language_override");
    encode_utf8_decode_utf8("language_override"@);
    reveal_strlit("weights");
    encode_utf8_decode_utf8("weights"@);
    reveal_strlit("bits");
    encode_utf8_decode_utf8("bits"@);
    reveal_strlit("max");
    encode_utf8_decode_utf8("max"@);
    reveal_strlit("min");
    encode_utf8_decode_utf8("min"@);
    reveal_strlit("bucket_size");
    encode_utf8_decode_utf8("bucket_size"@);
    assert("name"@[0] != "bits"@[0]);
    assert("unique"@[0] != "sparse"@[0]);
    assert("unique"@[0] != "hidden"@[0]);
    assert("sparse"@[0] != "hidden"@[0]);
    assert("max"@[1] != "min"@[1]);
}

/// Whether an entry under a string key is taken as one of the index options.
pub open spec fn index_taken(name: Seq<u8>, v: Val) -> bool {
    ||| name == "name".spec_bytes()
    ||| name == "unique".spec_bytes()
    ||| name == "background".spec_bytes()
    ||| name == "sparse".spec_bytes()
    ||| name == "storage_engine".spec_bytes() && (v matches Val::Table(t) && doc_of(t) is Ok)
    ||| name == "partial_filter_expression".spec_bytes() && (v matches Val::Table(t) && doc_of(t) is Ok)
    ||| name == "wildcard_projection".spec_bytes() && (v matches Val::Table(t) && doc_of(t) is Ok)
    ||| name == "hidden".spec_bytes()
    ||| name == "default_language".spec_bytes()
    ||| name == "language_override".spec_bytes()
    ||| name == "weights".spec_bytes() && (v matches Val::Table(t) && doc_of(t) is Ok)
    ||| name == "bits".spec_bytes()
    ||| name == "max".spec_bytes()
    ||| name == "min".spec_bytes()
    ||| name == "bucket_size".spec_bytes()
}

proof fn lemma_index_taken(es: Seq<(Val, Val)>, o: IndexSet)
    ensures
        index_set(es, o) is Ok <==> forall|i: int|
            0 <= i < es.len() && (#[trigger] es[i]).0 is Str ==> index_taken(
                es[i].0->Str_0,
                es[i].1,
            ),
    decreases es.len(),
{
    lemma_index_names();
    if es.len() > 0 {
        let rest = es.skip(1);
        if let Val::Str(key, _) = es[0].0 {
            if let Ok(next) = set_index(o, key, es[0].1) {
                lemma_index_taken(rest, next);
            }
        } else {
            lemma_index_taken(rest, o);
        }
        if index_set(es, o) is Ok {
            assert forall|i: int|
                0 <= i < es.len() && (#[trigger] es[i]).0 is Str implies index_taken(
                es[i].0->Str_0,
                es[i].1,
            ) by {
                if i > 0 {
                    assert(es[i] == rest[i - 1]);
                }
            }
        }
        if forall|i: int|
            0 <= i < es.len() && (#[trigger] es[i]).0 is Str ==> index_taken(
                es[i].0->Str_0,
                es[i].1,
            ) {
            assert(es[0].0 is Str ==> index_taken(es[0].0->Str_0, es[0].1));
            assert forall|i: int|
                0 <= i < rest.len() && (#[trigger] rest[i]).0 is Str implies index_taken(
                rest[i].0->Str_0,
                rest[i].1,
            ) by {
                assert(rest[i] == es[i + 1]);
            }
        }
    }
}

proof fn lemma_index_name(es: Seq<(Val, Val)>, o: IndexSet)
    requires
        names_differ(es),
    ensures
        index_set(es, o) matches Ok(n) ==> {
            &&& match named(es, "name".spec_bytes()) {
                Some(Val::Str(i, _)) => reads_text(Val::Str(i, None), n.name),
                _ => n.name == o.name,
            }
            &&& match named(es, "unique".spec_bytes()) {
                Some(Val::Bool(i)) => reads_bool(Val::Bool(i), n.unique),
                _ => n.unique == o.unique,
            }
            &&& match named(es, "background".spec_bytes()) {
                Some(Val::Bool(i)) => reads_bool(Val::Bool(i), n.background),
                _ => n.background == o.background,
            }
        },
    decreases es.len(),
{
    lemma_index_names();
    if es.len() > 0 {
        let rest = es.skip(1);
        lemma_rest_differs(es);
        if let Val::Str(key, _) = es[0].0 {
            if let Ok(next) = set_index(o, key, es[0].1) {
                lemma_index_name(rest, next);
            }
        } else {
            lemma_index_name(rest, o);
        }
    }
}

proof fn lemma_index_sparse(es: Seq<(Val, Val)>, o: IndexSet)
    requires
        names_differ(es),
    ensures
        index_set(es, o) matches Ok(n) ==> {
            &&& match named(es, "sparse".spec_bytes()) {
                Some(Val::Bool(i)) => reads_bool(Val::Bool(i), n.sparse),
                _ => n.sparse == o.sparse,
            }
            &&& match named(es, "storage_engine".spec_bytes()) {
                Some(v) => reads_doc(v, n.storage_engine) && !(v is Nil),
                None => n.storage_engine == o.storage_engine,
            }
            &&& match named(es, "partial_filter_expression".spec_bytes()) {
                Some(v) => reads_doc(v, n.partial_filter_expression) && !(v is Nil),
                None => n.partial_filter_expression == o.partial_filter_expression,
            }
        },
    decreases es.len(),
{
    lemma_index_names();
    if es.len() > 0 {
        let rest = es.skip(1);
        lemma_rest_differs(es);
        if let Val::Str(key, _) = es[0].0 {
            if let Ok(next) = set_index(o, key, es[0].1) {
                lemma_index_sparse(rest, next);
            }
        } else {
            lemma_index_sparse(rest, o);
        }
    }
}

proof fn lemma_index_wildcard_projection(es: Seq<(Val, Val)>, o: IndexSet)
    requires
        names_differ(es),
    ensures
        index_set(es, o) matches Ok(n) ==> {
            &&& match named(es, "wildcard_projection".spec_bytes()) {
                Some(v) => reads_doc(v, n.wildcard_projection) && !(v is Nil),
                None => n.wildcard_projection == o.wildcard_projection,
            }
            &&& match named(es, "hidden".spec_bytes()) {
                Some(Val::Bool(i)) => reads_bool(Val::Bool(i), n.hidden),
                _ => n.hidden == o.hidden,
            }
            &&& match named(es, "default_language".spec_bytes()) {
                Some(Val::Str(i, _)) => reads_text(Val::Str(i, None), n.default_language),
                _ => n.default_language == o.default_language,
            }
        },
    decreases es.len(),
{
    lemma_index_names();
    if es.len() > 0 {
        let rest = es.skip(1);
        lemma_rest_differs(es);
        if let Val::Str(key, _) = es[0].0 {
            if let Ok(next) = set_index(o, key, es[0].1) {
                lemma_index_wildcard_projection(rest, next);
            }
        } else {
            lemma_index_wildcard_projection(rest, o);
        }
    }
}

proof fn lemma_index_language_override(es: Seq<(Val, Val)>, o: IndexSet)
    requires
        names_differ(es),
    ensures
        index_set(es, o) matches Ok(n) ==> {
            &&& match named(es, "language_override".spec_bytes()) {
                Some(Val::Str(i, _)) => reads_text(Val::Str(i, None), n.language_override),
                _ => n.language_override == o.language_override,
            }
            &&& match named(es, "weights".spec_bytes()) {
                Some(v) => reads_doc(v, n.weights) && !(v is Nil),
                None => n.weights == o.weights,
            }
            &&& match named(es, "bits".spec_bytes()) {
                Some(Val::Int(i)) => reads_u32(Val::Int(i), n.bits),
                _ => n.bits == o.bits,
            }
        },
    decreases es.len(),
{
    lemma_index_names();
    if es.len() > 0 {
        let rest = es.skip(1);
        lemma_rest_differs(es);
        if let Val::Str(key, _) = es[0].0 {
            if let Ok(next) = set_index(o, key, es[0].1) {
                lemma_index_language_override(rest, next);
            }
        } else {
            lemma_index_language_override(rest, o);
        }
    }
}

proof fn lemma_index_max(es: Seq<(Val, Val)>, o: IndexSet)
    requires
        names_differ(es),
    ensures
        index_set(es, o) matches Ok(n) ==> {
            &&& match named(es, "max".spec_bytes()) {
                Some(Val::Num(i, _)) => reads_float(Val::Num(i, Seq::empty()), n.max),
                _ => n.max == o.max,
            }
            &&& match named(es, "min".spec_bytes()) {
                Some(Val::Num(i, _)) => reads_float(Val::Num(i, Seq::empty()), n.min),
                _ => n.min == o.min,
            }
            &&& match named(es, "bucket_size".spec_bytes()) {
                Some(Val::Int(i)) => reads_u32(Val::Int(i), n.bucket_size),
                _ => n.bucket_size == o.bucket_size,
            }
        },
    decreases es.len(),
{
    lemma_index_names();
    if es.len() > 0 {
        let rest = es.skip(1);
        lemma_rest_differs(es);
        if let Val::Str(key, _) = es[0].0 {
            if let Ok(next) = set_index(o, key, es[0].1) {
                lemma_index_max(rest, next);
            }
        } else {
            lemma_index_max(rest, o);
        }
    }
}

/// The options of an index are what the table has under their names, and what is
/// not there is not set. A table is refused exactly where a string key is no
/// option's name, or a document option is no table or cannot be a document.
pub proof fn law_index_options_are_the_tables(t: Tab)
    requires
        tidy(t),
    ensures
        index_set(t.entries(), IndexSet::unset()) is Ok <==> forall|i: int|
            0 <= i < t.entries().len() && (#[trigger] t.entries()[i]).0 is Str ==> index_taken(
                t.entries()[i].0->Str_0,
                t.entries()[i].1,
            ),
        index_set(t.entries(), IndexSet::unset()) matches Ok(o) ==> {
            &&& reads_text(t.get(field_key("name")), o.name)
            &&& reads_bool(t.get(field_key("unique")), o.unique)
            &&& reads_bool(t.get(field_key("background")), o.background)
            &&& reads_bool(t.get(field_key("sparse")), o.sparse)
            &&& reads_doc(t.get(field_key("storage_engine")), o.storage_engine)
            &&& reads_doc(t.get(field_key("partial_filter_expression")), o.partial_filter_expression)
            &&& reads_doc(t.get(field_key("wildcard_projection")), o.wildcard_projection)
            &&& reads_bool(t.get(field_key("hidden")), o.hidden)
            &&& reads_text(t.get(field_key("default_language")), o.default_language)
            &&& reads_text(t.get(field_key("language_override")), o.language_override)
            &&& reads_doc(t.get(field_key("weights")), o.weights)
            &&& reads_u32(t.get(field_key("bits")), o.bits)
            &&& reads_float(t.get(field_key("max")), o.max)
            &&& reads_float(t.get(field_key("min")), o.min)
            &&& reads_u32(t.get(field_key("bucket_size")), o.bucket_size)
        },
{
    lemma_table_names(t, "name".spec_bytes());
    lemma_table_names(t, "unique".spec_bytes());
    lemma_table_names(t, "background".spec_bytes());
    lemma_table_names(t, "sparse".spec_bytes());
    lemma_table_names(t, "storage_engine".spec_bytes());
    lemma_table_names(t, "partial_filter_expression".spec_bytes());
    lemma_table_names(t, "wildcard_projection".spec_bytes());
    lemma_table_names(t, "hidden".spec_bytes());
    lemma_table_names(t, "default_language".spec_bytes());
    lemma_table_names(t, "language_override".spec_bytes());
    lemma_table_names(t, "weights".spec_bytes());
    lemma_table_names(t, "bits".spec_bytes());
    lemma_table_names(t, "max".spec_bytes());
    lemma_table_names(t, "min".spec_bytes());
    lemma_table_names(t, "bucket_size".spec_bytes());
    lemma_index_taken(t.entries(), IndexSet::unset());
    lemma_index_name(t.entries(), IndexSet::unset());
    lemma_index_sparse(t.entries(), IndexSet::unset());
    lemma_index_wildcard_projection(t.entries(), IndexSet::unset());
    lemma_index_language_override(t.entries(), IndexSet::unset());
    lemma_index_max(t.entries(), IndexSet::unset());
}

} // verus!
