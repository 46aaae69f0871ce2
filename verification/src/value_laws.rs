//! What values are put on the stack and read from it as, when keys are the same,
//! and what a table's entries are.
use vstd::prelude::*;
use vstd::string::*;
use vstd::utf8::*;

use crate::bson::{doc_key, is_object_id, object_id_of};
use crate::laux::{slot_field, FromLua, LuaNil, LuaPush};
use crate::stack_laws::law_integers_in_range_are_kept;
use crate::table::{place_key, with_entry};
use crate::table_laws::{found_again, law_set_then_get, tidy};
use crate::text::decimal;
use crate::text_laws::spells_byte;
use crate::value::{
    array_entries, find, is_key, kind_name, kind_of, lemma_find, raw_equal, stored_key, Tab,
    Val,
};
use crate::words::{slot_isize, slot_usize};

verus! {

/// An integer of this width goes onto the stack as it is and is read back as it
/// is; one that does not fit is read as what it is by whole turns.
pub proof fn law_i8_goes_there_and_back(x: i8, i: i64)
    ensures
        x.pushed() == Val::Int(x as i64),
        <i8 as FromLua>::accepts(Some(Val::Int(i))),
        x.is_from(Some(x.pushed())),
        i8::MIN <= i <= i8::MAX ==> (x.is_from(Some(Val::Int(i))) <==> x == i),
{
    law_integers_in_range_are_kept(x as int, x as int, i8::MIN as int, i8::MAX as int);
    if i8::MIN <= i <= i8::MAX {
        law_integers_in_range_are_kept(i as int, x as int, i8::MIN as int, i8::MAX as int);
    }
}

/// An integer of this width goes onto the stack as it is and is read back as it
/// is; one that does not fit is read as what it is by whole turns.
pub proof fn law_u8_goes_there_and_back(x: u8, i: i64)
    ensures
        x.pushed() == Val::Int(x as i64),
        <u8 as FromLua>::accepts(Some(Val::Int(i))),
        x.is_from(Some(x.pushed())),
        0 <= i <= u8::MAX ==> (x.is_from(Some(Val::Int(i))) <==> x == i),
{
    law_integers_in_range_are_kept(x as int, x as int, 0 as int, u8::MAX as int);
    if 0 <= i <= u8::MAX {
        law_integers_in_range_are_kept(i as int, x as int, 0 as int, u8::MAX as int);
    }
}

/// An integer of this width goes onto the stack as it is and is read back as it
/// is; one that does not fit is read as what it is by whole turns.
pub proof fn law_i16_goes_there_and_back(x: i16, i: i64)
    ensures
        x.pushed() == Val::Int(x as i64),
        <i16 as FromLua>::accepts(Some(Val::Int(i))),
        x.is_from(Some(x.pushed())),
        i16::MIN <= i <= i16::MAX ==> (x.is_from(Some(Val::Int(i))) <==> x == i),
{
    law_integers_in_range_are_kept(x as int, x as int, i16::MIN as int, i16::MAX as int);
    if i16::MIN <= i <= i16::MAX {
        law_integers_in_range_are_kept(i as int, x as int, i16::MIN as int, i16::MAX as int);
    }
}

/// An integer of this width goes onto the stack as it is and is read back as it
/// is; one that does not fit is read as what it is by whole turns.
pub proof fn law_u16_goes_there_and_back(x: u16, i: i64)
    ensures
        x.pushed() == Val::Int(x as i64),
        <u16 as FromLua>::accepts(Some(Val::Int(i))),
        x.is_from(Some(x.pushed())),
        0 <= i <= u16::MAX ==> (x.is_from(Some(Val::Int(i))) <==> x == i),
{
    law_integers_in_range_are_kept(x as int, x as int, 0 as int, u16::MAX as int);
    if 0 <= i <= u16::MAX {
        law_integers_in_range_are_kept(i as int, x as int, 0 as int, u16::MAX as int);
    }
}

/// An integer of this width goes onto the stack as it is and is read back as it
/// is; one that does not fit is read as what it is by whole turns.
pub proof fn law_i32_goes_there_and_back(x: i32, i: i64)
    ensures
        x.pushed() == Val::Int(x as i64),
        <i32 as FromLua>::accepts(Some(Val::Int(i))),
        x.is_from(Some(x.pushed())),
        i32::MIN <= i <= i32::MAX ==> (x.is_from(Some(Val::Int(i))) <==> x == i),
{
    law_integers_in_range_are_kept(x as int, x as int, i32::MIN as int, i32::MAX as int);
    if i32::MIN <= i <= i32::MAX {
        law_integers_in_range_are_kept(i as int, x as int, i32::MIN as int, i32::MAX as int);
    }
}

/// An integer of this width goes onto the stack as it is and is read back as it
/// is; one that does not fit is read as what it is by whole turns.
pub proof fn law_u32_goes_there_and_back(x: u32, i: i64)
    ensures
        x.pushed() == Val::Int(x as i64),
        <u32 as FromLua>::accepts(Some(Val::Int(i))),
        x.is_from(Some(x.pushed())),
        0 <= i <= u32::MAX ==> (x.is_from(Some(Val::Int(i))) <==> x == i),
{
    law_integers_in_range_are_kept(x as int, x as int, 0 as int, u32::MAX as int);
    if 0 <= i <= u32::MAX {
        law_integers_in_range_are_kept(i as int, x as int, 0 as int, u32::MAX as int);
    }
}

/// An integer of the machine goes onto the stack and is read back as it is; an
/// unsigned one of the same width as the integer of the same bits.
pub proof fn law_wide_integers_go_there_and_back(x: i64, u: u64, y: i64, w: u64)
    ensures
        x.pushed() == Val::Int(x),
        y.is_from(Some(Val::Int(x))) <==> y == x,
        u < 0x8000_0000_0000_0000 ==> u.pushed() == Val::Int(u as i64),
        u >= 0x8000_0000_0000_0000 ==> u.pushed() == Val::Int(
            (u - 0x1_0000_0000_0000_0000) as i64,
        ),
        w.is_from(Some(u.pushed())) <==> w == u,
        x >= 0 ==> (w.is_from(Some(Val::Int(x))) <==> w == x),
{
    if u < 0x8000_0000_0000_0000 {
        law_integers_in_range_are_kept(u as int, w as int, 0, u64::MAX as int);
    } else {
        let d = u - 0x1_0000_0000_0000_0000 - w;
        if w == u {
            assert(d == -0x1_0000_0000_0000_0000int);
            assert(d % 0x1_0000_0000_0000_0000 == 0);
        }
    }
    if x >= 0 {
        law_integers_in_range_are_kept(x as int, w as int, 0, u64::MAX as int);
    }
}

/// Switches, texts, bytes and nil go onto the stack and are read back as they are,
/// and from nothing else.
pub proof fn law_plain_values_go_there_and_back(
    b: bool,
    s: String,
    bytes: Vec<u8>,
    v: Val,
    text: &str,
)
    ensures
        b.pushed() == Val::Bool(b),
        b.is_from(Some(v)) <==> v == Val::Bool(b),
        s.pushed() == Val::Str(encode_utf8(s@), None),
        text.pushed() == Val::Str(encode_utf8(text@), None),
        s.is_from(Some(s.pushed())),
        s.is_from(Some(v)) ==> v is Str && v->Str_0 == encode_utf8(s@),
        bytes.pushed() == Val::Str(bytes@, None),
        bytes.is_from(Some(v)) <==> v is Str && v->Str_0 == bytes@,
        LuaNil.pushed() == Val::Nil,
{
    encode_utf8_valid_utf8(s@);
    encode_utf8_decode_utf8(s@);
    if let Val::Str(x, _) = v {
        if valid_utf8(x) {
            decode_utf8_encode_utf8(x);
        }
    }
}

/// A machine word is read as it is where it fits, and is the default where there is
/// no integer.
pub proof fn law_words_are_read_as_they_are(n: i64, default: int)
    ensures
        0 <= n <= usize::MAX ==> slot_usize(Some(Val::Int(n)), default) == n,
        isize::MIN <= n <= isize::MAX ==> slot_isize(Some(Val::Int(n)), default) == n,
        slot_usize(None, default) == default,
        slot_isize(None, default) == default,
        slot_usize(Some(Val::Nil), default) == default,
        slot_isize(Some(Val::Nil), default) == default,
{
    if 0 <= n <= usize::MAX {
        vstd::arithmetic::div_mod::lemma_small_mod(n as nat, (usize::MAX + 1) as nat);
    }
    if isize::MIN <= n <= isize::MAX {
        vstd::arithmetic::div_mod::lemma_small_mod(
            (n - isize::MIN) as nat,
            (usize::MAX + 1) as nat,
        );
    }
}

/// Keys are the same where they are of one kind and have the same content, or are
/// the same object; keys of different kinds never are.
pub proof fn law_keys_are_the_same_by_content(a: Val, b: Val)
    ensures
        raw_equal(a, b) == raw_equal(b, a),
        raw_equal(a, b) ==> kind_of(a) == kind_of(b),
        a is Int && b is Int ==> (raw_equal(a, b) <==> a == b),
        a is Bool && b is Bool ==> (raw_equal(a, b) <==> a == b),
        a is Light && b is Light ==> (raw_equal(a, b) <==> a == b),
        a is Func && b is Func ==> (raw_equal(a, b) <==> a == b),
        a is Thread && b is Thread ==> (raw_equal(a, b) <==> a == b),
        a is Str && b is Str ==> (raw_equal(a, b) <==> a->Str_0 == b->Str_0),
        a is Num && b is Num ==> (raw_equal(a, b) <==> a->Num_0 == b->Num_0),
        a is User && b is User ==> (raw_equal(a, b) <==> a->User_0 == b->User_0),
        a is Table && b is Table && a->Table_0.address != 0 ==> (raw_equal(a, b)
            <==> a->Table_0.address == b->Table_0.address),
        is_key(a) <==> !(a is Nil) && (a is Num ==> a->Num_0 as int % 0x8000_0000_0000_0000
            <= 0x7ff0_0000_0000_0000),
{
}

proof fn lemma_array_entry(array: Seq<Val>, i: int)
    requires
        array.len() < i64::MAX,
        0 <= i < array_entries(array).len(),
    ensures
        array_entries(array)[i].0 is Int,
        1 <= array_entries(array)[i].0->Int_0 <= array.len(),
        array[array_entries(array)[i].0->Int_0 - 1] == array_entries(array)[i].1,
        !(array_entries(array)[i].1 is Nil),
    decreases array.len(),
{
    let front = array.drop_last();
    if i < array_entries(front).len() {
        lemma_array_entry(front, i);
    }
}

proof fn lemma_array_has_entry(array: Seq<Val>, k: int)
    requires
        array.len() < i64::MAX,
        0 <= k < array.len(),
        !(array[k] is Nil),
    ensures
        array_entries(array).contains((Val::Int((k + 1) as i64), array[k])),
    decreases array.len(),
{
    let front = array.drop_last();
    let es = array_entries(array);
    if k < front.len() {
        lemma_array_has_entry(front, k);
        let i = choose|i: int|
            0 <= i < array_entries(front).len() && array_entries(front)[i] == (
                Val::Int((k + 1) as i64),
                front[k],
            );
        assert(es[i] == array_entries(front)[i]);
    } else {
        assert(es[es.len() - 1] == (Val::Int((k + 1) as i64), array[k]));
    }
}

/// The entries of a table are its keys with what it has under them: whatever is
/// met in a traversal is what a lookup finds, and whatever a lookup finds is met.
pub proof fn law_entries_are_what_lookups_find(t: Tab, i: int, key: Val)
    requires
        tidy(t),
        t.array.len() < i64::MAX,
        forall|j: int| 0 <= j < t.hash.len() ==> found_again((#[trigger] t.hash[j]).0),
    ensures
        0 <= i < t.entries().len() ==> t.get(t.entries()[i].0) == t.entries()[i].1,
        !(t.get(key) is Nil) ==> exists|j: int|
            0 <= j < t.entries().len() && raw_equal(
                (#[trigger] t.entries()[j]).0,
                stored_key(key),
            ) && t.entries()[j].1 == t.get(key),
{
    let front = array_entries(t.array);
    let es = t.entries();
    if 0 <= i < es.len() {
        if i < front.len() {
            lemma_array_entry(t.array, i);
            assert(es[i] == front[i]);
        } else {
            let h = i - front.len();
            let k = t.hash[h].0;
            assert(es[i] == t.hash[h]);
            assert(is_key(k) && stored_key(k) == k && !t.in_array(k));
            assert(found_again(t.hash[h].0));
            lemma_find(t.hash, k);
            let f = find(t.hash, k);
            assert(raw_equal(t.hash[h].0, k));
            if f != h {
                assert(f < h);
                assert(!raw_equal(t.hash[f].0, t.hash[h].0));
            }
        }
    }
    if !(t.get(key) is Nil) {
        let k = stored_key(key);
        if t.in_array(k) {
            let n = k->Int_0 - 1;
            lemma_array_has_entry(t.array, n);
            let j = choose|j: int|
                0 <= j < front.len() && front[j] == (Val::Int((n + 1) as i64), t.array[n]);
            assert(es[j] == front[j]);
        } else {
            lemma_find(t.hash, k);
            let f = find(t.hash, k);
            assert(es[front.len() + f] == t.hash[f]);
        }
    }
}

/// Setting an entry of a table on the stack changes that table and no other slot;
/// the table then has the value under the key, and what it had under others.
pub proof fn law_entries_are_set_on_the_stack(
    s: Seq<Val>,
    index: int,
    key: Val,
    v: Val,
    other: Val,
    i: int,
)
    requires
        1 <= index <= s.len(),
        s[index - 1] is Table,
        tidy(s[index - 1]->Table_0),
        is_key(key),
        found_again(key),
        s[index - 1]->Table_0.array.len() + s[index - 1]->Table_0.hash.len() + 1 < i64::MAX,
    ensures
        ({
            let now = with_entry(s, index, key, v);
            &&& now.len() == s.len()
            &&& 0 <= i < s.len() && i != index - 1 ==> now[i] == s[i]
            &&& now[index - 1] is Table
            &&& now[index - 1]->Table_0.get(key) == v
            &&& !raw_equal(stored_key(key), stored_key(other)) ==> now[index - 1]->Table_0.get(
                other,
            ) == s[index - 1]->Table_0.get(other)
        }),
{
    law_set_then_get(s[index - 1]->Table_0, key, v, other);
}

/// The key of the element in a place is that place.
pub proof fn law_places_are_keys(n: int)
    requires
        0 <= n < 0x8000_0000_0000_0000,
    ensures
        place_key(n) == Val::Int(n as i64),
{
}

/// A field is what the table in the slot has under its name, and what is no table
/// has none.
pub proof fn law_fields_are_those_of_tables(t: Tab, key: Val, v: Val)
    ensures
        slot_field(Some(Val::Table(t)), key) == Some(t.get(key)),
        slot_field(None, key) is None,
        !(v is Table) ==> slot_field(Some(v), key) is None,
{
}

/// The key of a document entry is the text of the table key: a string's own where
/// it spells one, an integer's digits, a float's text; others are refused by kind.
pub proof fn law_document_keys_are_texts(k: Val, s: Seq<char>)
    ensures
        doc_key(Val::Str(encode_utf8(s), None)) == Ok::<Seq<char>, Seq<char>>(s),
        match k {
            Val::Int(i) => doc_key(k) == Ok::<Seq<char>, Seq<char>>(decimal(i as int)),
            Val::Num(_, text) => doc_key(k) == Ok::<Seq<char>, Seq<char>>(text),
            Val::Str(b, _) => !valid_utf8(b) ==> doc_key(k) == Err::<Seq<char>, Seq<char>>(
                "Invalid document key: not valid UTF-8"@,
            ),
            _ => doc_key(k) == Err::<Seq<char>, Seq<char>>(
                "Invalid key type: "@ + kind_name(kind_of(k)),
            ),
        },
{
    encode_utf8_valid_utf8(s);
    encode_utf8_decode_utf8(s);
}

/// A digit that can spell an object id, in either case, as lowercase.
pub open spec fn lowered(c: char) -> char {
    if 'A' <= c <= 'F' {
        (c as int + 32) as char
    } else {
        c
    }
}

/// An object id is spelled by 24 digits, `0` to `9` and `a` to `f` in either case,
/// two for each of its twelve bytes, the high one first.
pub proof fn law_object_ids_are_spelled_by_digits(s: Seq<char>, i: int)
    ensures
        is_object_id(s) <==> s.len() == 24 && forall|k: int|
            0 <= k < s.len() ==> '0' <= #[trigger] s[k] <= '9' || 'a' <= s[k] <= 'f' || 'A' <= s[k]
                <= 'F',
        is_object_id(s) ==> object_id_of(s).len() == 12,
        is_object_id(s) && 0 <= i < 12 ==> spells_byte(
            s.map_values(|c: char| lowered(c)),
            i,
            object_id_of(s)[i],
        ),
{
    if is_object_id(s) && 0 <= i < 12 {
        let t = s.map_values(|c: char| lowered(c));
        assert(crate::bson::hex_value(s[2 * i]) >= 0);
        assert(crate::bson::hex_value(s[2 * i + 1]) >= 0);
        assert(t[2 * i] == lowered(s[2 * i]));
        assert(t[2 * i + 1] == lowered(s[2 * i + 1]));
    }
    if s.len() == 24 && forall|k: int|
        0 <= k < s.len() ==> '0' <= #[trigger] s[k] <= '9' || 'a' <= s[k] <= 'f' || 'A' <= s[k]
            <= 'F' {
        assert forall|k: int| 0 <= k < 24 implies crate::bson::hex_value(#[trigger] s[k]) >= 0 by {}
    }
}

} // verus!
