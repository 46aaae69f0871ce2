//! Binary serialization of Lua values.
//!
//! A value is one tag byte, its kind in the low three bits and a cookie in the
//! high five, followed by what the kind needs. A table is its sequence part,
//! then key and value pairs, then a nil.
use vstd::prelude::*;
use vstd::string::*;

use crate::number::{bits64, integer64, is_nan, is_nan_spec, signed64, unsigned64};
use crate::text::{from_utf8_lossy, lossy_text};
use crate::value::{
    kind_name, kind_of, view_entries, view_failure, Failure, LuaValue, MetaPairs, PairsFailure, Tab,
    TableValue, Val, Walk,
};

verus! {

pub const TYPE_NIL: u8 = 0;

pub const TYPE_BOOLEAN: u8 = 1;

pub const TYPE_NUMBER: u8 = 2;

pub const TYPE_NUMBER_ZERO: u8 = 0;

pub const TYPE_NUMBER_BYTE: u8 = 1;

pub const TYPE_NUMBER_WORD: u8 = 2;

pub const TYPE_NUMBER_DWORD: u8 = 4;

pub const TYPE_NUMBER_QWORD: u8 = 6;

pub const TYPE_NUMBER_REAL: u8 = 8;

pub const TYPE_USERDATA: u8 = 3;

pub const TYPE_SHORT_STRING: u8 = 4;

pub const TYPE_LONG_STRING: u8 = 5;

pub const TYPE_TABLE: u8 = 6;

/// Cookies are below this.
pub const MAX_COOKIE: u8 = 32;

/// Tables may nest this deep.
pub const MAX_DEPTH: usize = 32;

/// Stack slots that a table asks the machine for.
pub const MIN_STACK: usize = 20;

/// A tag byte.
pub open spec fn tag(kind: u8, cookie: int) -> u8 {
    (kind + 8 * cookie) as u8
}

/// The low `k` bytes of `n`, least significant first.
pub open spec fn le(n: nat, k: nat) -> Seq<u8>
    decreases k,
{
    if k == 0 {
        Seq::empty()
    } else {
        seq![(n % 256) as u8] + le(n / 256, (k - 1) as nat)
    }
}

/// The number that bytes spell, least significant first.
pub open spec fn le_value(b: Seq<u8>) -> nat
    decreases b.len(),
{
    if b.len() == 0 {
        0
    } else {
        b[0] as nat + 256 * le_value(b.skip(1))
    }
}

/// Two's complement of an integer in 32 bits.
pub open spec fn unsigned32(v: int) -> nat {
    (if v < 0 {
        v + 0x1_0000_0000
    } else {
        v
    }) as nat
}

/// The integer that 32 bits stand for.
pub open spec fn signed32(n: nat) -> int {
    if n >= 0x8000_0000 {
        n - 0x1_0000_0000
    } else {
        n as int
    }
}

/// The bytes of an integer: the shortest of the widths that hold it.
pub open spec fn packed_integer(v: int) -> Seq<u8> {
    if v == 0 {
        seq![tag(TYPE_NUMBER, TYPE_NUMBER_ZERO as int)]
    } else if !(i32::MIN <= v <= i32::MAX) {
        seq![tag(TYPE_NUMBER, TYPE_NUMBER_QWORD as int)] + le(unsigned64(v), 8)
    } else if v < 0 {
        seq![tag(TYPE_NUMBER, TYPE_NUMBER_DWORD as int)] + le(unsigned32(v), 4)
    } else if v < 0x100 {
        seq![tag(TYPE_NUMBER, TYPE_NUMBER_BYTE as int)] + le(v as nat, 1)
    } else if v < 0x10000 {
        seq![tag(TYPE_NUMBER, TYPE_NUMBER_WORD as int)] + le(v as nat, 2)
    } else {
        seq![tag(TYPE_NUMBER, TYPE_NUMBER_DWORD as int)] + le(v as nat, 4)
    }
}

/// The bytes of a string. A long length keeps its low 32 bits.
pub open spec fn packed_bytes(b: Seq<u8>) -> Seq<u8> {
    if b.len() < 32 {
        seq![tag(TYPE_SHORT_STRING, b.len() as int)] + b
    } else if b.len() < 0x10000 {
        seq![tag(TYPE_LONG_STRING, 2)] + le(b.len(), 2) + b
    } else {
        seq![tag(TYPE_LONG_STRING, 4)] + le(b.len() % 0x1_0000_0000, 4) + b
    }
}

/// The head of a table whose sequence part has `n` elements.
pub open spec fn packed_head(n: nat) -> Seq<u8> {
    if n >= 31 {
        seq![tag(TYPE_TABLE, 31)] + packed_integer(signed64(n))
    } else {
        seq![tag(TYPE_TABLE, n as int)]
    }
}

/// What a failed `__pairs` walk is reported as.
pub open spec fn failure_text(f: Failure) -> Seq<char> {
    match f {
        Failure::Call(b) => "serialize __pairs error: "@ + error_object_text(b),
        Failure::Iterator(b) => "serialize __pairs iterator error: "@ + error_object_text(b),
    }
}

/// The text of an error object.
pub open spec fn error_object_text(b: Option<Seq<u8>>) -> Seq<char> {
    match b {
        Some(bytes) => lossy_text(bytes),
        None => "unknown error"@,
    }
}

/// Why something could not be written whole, and the bytes written of it.
pub struct Unwritten {
    pub written: Seq<u8>,
    pub message: Seq<char>,
}

/// A refusal with nothing written.
pub open spec fn refused(message: Seq<char>) -> Unwritten {
    Unwritten { written: Seq::empty(), message }
}

/// Bytes put in front of an outcome.
pub open spec fn joined(a: Seq<u8>, r: Result<Seq<u8>, Unwritten>) -> Result<Seq<u8>, Unwritten> {
    match r {
        Ok(b) => Ok(a + b),
        Err(e) => Err(Unwritten { written: a + e.written, ..e }),
    }
}

/// One outcome after another: the first error wins.
pub open spec fn chained(
    a: Result<Seq<u8>, Unwritten>,
    b: Result<Seq<u8>, Unwritten>,
) -> Result<Seq<u8>, Unwritten> {
    match a {
        Ok(bytes) => joined(bytes, b),
        Err(e) => Err(e),
    }
}

/// Whether an entry of a table with `n` sequence elements is one of those.
pub open spec fn in_sequence(k: Val, n: nat) -> bool {
    k matches Val::Int(i) && 0 < i <= n
}

/// The bytes of a value `depth` tables deep, with `room` free stack slots, or
/// what stops it.
pub open spec fn packed(v: Val, depth: int, room: int) -> Result<Seq<u8>, Unwritten>
    decreases v,
{
    if depth > MAX_DEPTH {
        Err(refused("serialize can't pack too depth table"@))
    } else {
        match v {
            Val::Nil => Ok(seq![TYPE_NIL]),
            Val::Num(bits, _) => if is_nan_spec(bits) {
                Err(refused("serialize can't pack 'nan' number value"@))
            } else {
                Ok(seq![tag(TYPE_NUMBER, TYPE_NUMBER_REAL as int)] + le(bits as nat, 8))
            },
            Val::Int(i) => Ok(packed_integer(i as int)),
            Val::Bool(b) => Ok(
                seq![
                    tag(
                        TYPE_BOOLEAN,
                        if b {
                            1
                        } else {
                            0
                        },
                    ),
                ],
            ),
            Val::Str(b, _) => Ok(packed_bytes(b)),
            Val::Light(p) => Ok(seq![TYPE_USERDATA] + le(p as nat, 8)),
            Val::Table(t) => packed_table(t, depth + 1, room),
            _ => Err(refused("Unsupport type `"@ + kind_name(kind_of(v)) + "` to serialize"@)),
        }
    }
}

/// The bytes of a table.
pub open spec fn packed_table(t: Tab, depth: int, room: int) -> Result<Seq<u8>, Unwritten>
    decreases t,
{
    if room < MIN_STACK {
        Err(refused("stack overflow (serialize)"@))
    } else {
        match t.pairs {
            Some(w) => joined(
                seq![tag(TYPE_TABLE, 0)],
                chained(packed_walk(w, depth, room - 4), Ok(seq![TYPE_NIL])),
            ),
            None => joined(
                packed_head(t.array.len()),
                chained(
                    packed_items(t.array, depth, room - 1),
                    chained(
                        packed_entries(t.hash, t.array.len(), depth, room - 2),
                        Ok(seq![TYPE_NIL]),
                    ),
                ),
            ),
        }
    }
}

/// The bytes of what a `__pairs` walk yields.
pub open spec fn packed_walk(w: Walk, depth: int, room: int) -> Result<Seq<u8>, Unwritten>
    decreases w,
{
    match packed_entries(w.entries, 0, depth, room) {
        Err(e) => Err(e),
        Ok(b) => match w.failure {
            Some(f) => Err(Unwritten { written: b, message: failure_text(f) }),
            None => Ok(b),
        },
    }
}

/// The bytes of sequence elements.
pub open spec fn packed_items(items: Seq<Val>, depth: int, room: int) -> Result<
    Seq<u8>,
    Unwritten,
>
    decreases items,
{
    if items.len() == 0 {
        Ok(Seq::empty())
    } else {
        chained(packed(items[0], depth, room), packed_items(items.skip(1), depth, room))
    }
}

/// The bytes of key and value pairs, those of the `n` sequence elements left
/// out.
pub open spec fn packed_entries(es: Seq<(Val, Val)>, n: nat, depth: int, room: int) -> Result<
    Seq<u8>,
    Unwritten,
>
    decreases es,
{
    if es.len() == 0 {
        Ok(Seq::empty())
    } else if in_sequence(es[0].0, n) {
        packed_entries(es.skip(1), n, depth, room)
    } else {
        chained(
            packed(es[0].0, depth, room),
            chained(
                packed(es[0].1, depth, room),
                packed_entries(es.skip(1), n, depth, room),
            ),
        )
    }
}

fn write_nil(buf: &mut Vec<u8>)
    ensures
        final(buf)@ == old(buf)@ + seq![TYPE_NIL],
{
    buf.push(TYPE_NIL);
    assert(buf@ =~= old(buf)@ + seq![TYPE_NIL]);
}

fn write_boolean(buf: &mut Vec<u8>, boolean: bool)
    ensures
        final(buf)@ == old(buf)@ + seq![
            tag(
                TYPE_BOOLEAN,
                if boolean {
                    1
                } else {
                    0
                },
            ),
        ],
{
    let cookie: u8 = if boolean {
        1
    } else {
        0
    };
    buf.push(TYPE_BOOLEAN + 8 * cookie);
    assert(buf@ =~= old(buf)@ + seq![tag(TYPE_BOOLEAN, cookie as int)]);
}

/// Appends the low `k` bytes of `n`, least significant first.
fn write_le(buf: &mut Vec<u8>, n: u64, k: usize)
    ensures
        final(buf)@ == old(buf)@ + le(n as nat, k as nat),
    decreases k,
{
    if k > 0 {
        buf.push((n % 256) as u8);
        write_le(buf, n / 256, k - 1);
    }
    assert(buf@ =~= old(buf)@ + le(n as nat, k as nat));
}

/// Appends an integer.
pub fn write_integer(buf: &mut Vec<u8>, v: i64)
    ensures
        final(buf)@ == old(buf)@ + packed_integer(v as int),
{
    if v == 0 {
        buf.push(TYPE_NUMBER + 8 * TYPE_NUMBER_ZERO);
    } else if v < i32::MIN as i64 || v > i32::MAX as i64 {
        buf.push(TYPE_NUMBER + 8 * TYPE_NUMBER_QWORD);
        write_le(buf, bits64(v), 8);
    } else if v < 0 {
        buf.push(TYPE_NUMBER + 8 * TYPE_NUMBER_DWORD);
        write_le(buf, (v + 0x1_0000_0000) as u64, 4);
    } else if v < 0x100 {
        buf.push(TYPE_NUMBER + 8 * TYPE_NUMBER_BYTE);
        write_le(buf, v as u64, 1);
    } else if v < 0x10000 {
        buf.push(TYPE_NUMBER + 8 * TYPE_NUMBER_WORD);
        write_le(buf, v as u64, 2);
    } else {
        buf.push(TYPE_NUMBER + 8 * TYPE_NUMBER_DWORD);
        write_le(buf, v as u64, 4);
    }
    assert(buf@ =~= old(buf)@ + packed_integer(v as int));
}

/// Appends a float.
pub fn write_real(buf: &mut Vec<u8>, bits: u64)
    ensures
        final(buf)@ == old(buf)@ + (seq![tag(TYPE_NUMBER, TYPE_NUMBER_REAL as int)] + le(
            bits as nat,
            8,
        )),
{
    buf.push(TYPE_NUMBER + 8 * TYPE_NUMBER_REAL);
    write_le(buf, bits, 8);
    assert(buf@ =~= old(buf)@ + (seq![tag(TYPE_NUMBER, TYPE_NUMBER_REAL as int)] + le(
        bits as nat,
        8,
    )));
}

/// Appends an address.
pub fn write_pointer(buf: &mut Vec<u8>, p: u64)
    ensures
        final(buf)@ == old(buf)@ + (seq![TYPE_USERDATA] + le(p as nat, 8)),
{
    buf.push(TYPE_USERDATA);
    write_le(buf, p, 8);
    assert(buf@ =~= old(buf)@ + (seq![TYPE_USERDATA] + le(p as nat, 8)));
}

/// Appends a string.
pub fn write_bytes(buf: &mut Vec<u8>, bytes: &[u8])
    ensures
        final(buf)@ == old(buf)@ + packed_bytes(bytes@),
{
    let len = bytes.len();
    if len < MAX_COOKIE as usize {
        buf.push(TYPE_SHORT_STRING + 8 * (len as u8));
    } else if len < 0x10000 {
        buf.push(TYPE_LONG_STRING + 8 * 2);
        write_le(buf, len as u64, 2);
    } else {
        buf.push(TYPE_LONG_STRING + 8 * 4);
        write_le(buf, len as u64 % 0x1_0000_0000, 4);
    }
    buf.extend_from_slice(bytes);
    assert(buf@ =~= old(buf)@ + packed_bytes(bytes@));
}

/// How packing onto a buffer turned out, against the outcome it is meant to have.
pub open spec fn appended(
    before: Seq<u8>,
    after: Seq<u8>,
    r: Result<(), String>,
    want: Result<Seq<u8>, Unwritten>,
) -> bool {
    match want {
        Ok(b) => r is Ok && after == before + b,
        Err(e) => r matches Err(m) && m@ == e.message && after == before + e.written,
    }
}

/// The report of a failed `__pairs` walk.
fn take_pcall_error(f: &PairsFailure) -> (r: String)
    ensures
        r@ == failure_text(view_failure(*f)),
{
    let (mut s, object): (String, &Option<Vec<u8>>) = match f {
        PairsFailure::Call(b) => ("serialize __pairs error: ".to_owned(), b),
        PairsFailure::Iterator(b) => ("serialize __pairs iterator error: ".to_owned(), b),
    };
    match object {
        Some(bytes) => {
            let text = from_utf8_lossy(bytes.as_slice());
            s.append(text.as_str());
        },
        None => {
            s.append("unknown error");
        },
    }
    s
}

/// No value packs into nothing.
pub proof fn law_every_value_takes_bytes(v: Val, depth: int, room: int)
    ensures
        packed(v, depth, room) matches Ok(b) ==> b.len() > 0,
{
}

/// Appends a value `depth` tables deep, with `room` free stack slots. Of a value
/// that is no table nothing is appended where it is refused.
pub fn pack_value(value: &LuaValue, buf: &mut Vec<u8>, depth: usize, room: usize) -> (r: Result<
    (),
    String,
>)
    ensures
        appended(old(buf)@, final(buf)@, r, packed(value@, depth as int, room as int)),
        r is Ok ==> old(buf)@.len() < final(buf)@.len(),
        r is Err && !(value@ is Table) ==> final(buf)@ == old(buf)@,
    decreases value, 0nat,
{
    proof {
        law_every_value_takes_bytes(value@, depth as int, room as int);
    }
    if depth > MAX_DEPTH {
        return Err("serialize can't pack too depth table".to_owned());
    }
    match value {
        LuaValue::Nil => {
            write_nil(buf);
        },
        LuaValue::Number(n) => {
            if is_nan(n.bits) {
                return Err("serialize can't pack 'nan' number value".to_owned());
            }
            write_real(buf, n.bits);
        },
        LuaValue::Integer(i) => {
            write_integer(buf, *i);
        },
        LuaValue::Boolean(b) => {
            write_boolean(buf, *b);
        },
        LuaValue::String(s) => {
            write_bytes(buf, s.bytes.as_slice());
        },
        LuaValue::LightUserData(p) => {
            write_pointer(buf, *p);
        },
        LuaValue::Table(t) => {
            return write_table(t, buf, depth + 1, room);
        },
        _ => {
            let mut m = "Unsupport type `".to_owned();
            m.append(value.kind().name());
            m.append("` to serialize");
            return Err(m);
        },
    }
    Ok(())
}

/// Appends a table.
pub fn write_table(t: &TableValue, buf: &mut Vec<u8>, depth: usize, room: usize) -> (r: Result<
    (),
    String,
>)
    ensures
        appended(old(buf)@, final(buf)@, r, packed_table(t@, depth as int, room as int)),
    decreases t, 1nat,
{
    if room < MIN_STACK {
        return Err("stack overflow (serialize)".to_owned());
    }
    match &t.pairs {
        Some(w) => {
            write_table_metapairs(w, buf, depth, room - 4)?;
        },
        None => {
            write_table_array(t, buf, depth, room - 1)?;
            let ghost mid = buf@;
            if let Err(m) = write_table_hash(&t.hash, t.array.len(), buf, depth, room - 2) {
                proof {
                    let a = packed_items(t@.array, depth as int, room - 1)->Ok_0;
                    let e = packed_entries(
                        t@.hash,
                        t@.array.len(),
                        depth as int,
                        room - 2,
                    )->Err_0;
                    let head = packed_head(t@.array.len());
                    assert(buf@ =~= old(buf)@ + (head + (a + e.written)));
                }
                return Err(m);
            }
        },
    }
    let ghost body = buf@;
    write_nil(buf);
    proof {
        match t@.pairs {
            Some(w) => {
                let b = packed_walk(w, depth as int, room - 4)->Ok_0;
                assert(buf@ =~= old(buf)@ + (seq![tag(TYPE_TABLE, 0)] + (b + seq![TYPE_NIL])));
            },
            None => {
                let a = packed_items(t@.array, depth as int, room - 1)->Ok_0;
                let h = packed_entries(t@.hash, t@.array.len(), depth as int, room - 2)->Ok_0;
                let head = packed_head(t@.array.len());
                assert(buf@ =~= old(buf)@ + (head + (a + (h + seq![TYPE_NIL]))));
            },
        }
    }
    Ok(())
}

/// Appends the head of a table and its sequence part.
fn write_table_array(t: &TableValue, buf: &mut Vec<u8>, depth: usize, room: usize) -> (r: Result<
    (),
    String,
>)
    ensures
        appended(
            old(buf)@,
            final(buf)@,
            r,
            joined(
                packed_head(t@.array.len()),
                packed_items(t@.array, depth as int, room as int),
            ),
        ),
    decreases t, 0nat,
{
    let array_size = t.array.len();
    if array_size >= MAX_COOKIE as usize - 1 {
        buf.push(TYPE_TABLE + 8 * (MAX_COOKIE - 1));
        write_integer(buf, integer64(array_size as u64));
    } else {
        buf.push(TYPE_TABLE + 8 * (array_size as u8));
    }
    let ghost head = old(buf)@ + packed_head(t@.array.len());
    assert(buf@ =~= head);
    let ghost items = t@.array;
    let ghost want = packed_items(items, depth as int, room as int);
    let mut i: usize = 0;
    assert(items.skip(0) =~= items);
    assert(want == joined(buf@.skip(head.len() as int), want)) by {
        assert(buf@.skip(head.len() as int) =~= Seq::empty());
        match want {
            Ok(b) => assert(Seq::empty() + b =~= b),
            Err(e) => assert(Seq::empty() + e.written =~= e.written),
        }
    }
    while i < array_size
        invariant
            array_size == t.array@.len(),
            items == t@.array,
            i <= items.len(),
            head == old(buf)@ + packed_head(items.len()),
            want == packed_items(items, depth as int, room as int),
            head.is_prefix_of(buf@),
            want == joined(
                buf@.skip(head.len() as int),
                packed_items(items.skip(i as int), depth as int, room as int),
            ),
        decreases items.len() - i,
    {
        let ghost rest = items.skip(i as int);
        let ghost before = buf@;
        assert(rest[0] == t.array@[i as int]@);
        assert(rest.skip(1) =~= items.skip(i + 1));
        if let Err(m) = pack_value(&t.array[i], buf, depth, room) {
            proof {
                lemma_cut(head, before, packed_items(rest, depth as int, room as int));
                assert(buf@ =~= old(buf)@ + (packed_head(items.len()) + want->Err_0.written));
            }
            return Err(m);
        }
        proof {
            lemma_joined(
                head,
                before,
                packed(rest[0], depth as int, room as int)->Ok_0,
                packed_items(rest.skip(1), depth as int, room as int),
            );
        }
        i = i + 1;
    }
    assert(items.skip(i as int) =~= Seq::empty());
    assert(buf@ =~= old(buf)@ + (packed_head(items.len()) + want->Ok_0)) by {
        assert(want->Ok_0 =~= buf@.skip(head.len() as int));
        assert(buf@ =~= head + buf@.skip(head.len() as int));
    }
    Ok(())
}

/// Where a piece could not be written whole, the account of what is done stands.
pub proof fn lemma_cut(head: Seq<u8>, before: Seq<u8>, rest: Result<Seq<u8>, Unwritten>)
    requires
        head.is_prefix_of(before),
        rest is Err,
    ensures
        joined(before.skip(head.len() as int), rest) matches Err(e) && {
            &&& e.message == rest->Err_0.message
            &&& head + e.written == before + rest->Err_0.written
        },
{
    let w = rest->Err_0.written;
    assert(before =~= head + before.skip(head.len() as int));
    assert(head + (before.skip(head.len() as int) + w) =~= before + w);
}

/// Appending one more piece keeps the account of what is done and what is left.
pub proof fn lemma_joined(
    head: Seq<u8>,
    before: Seq<u8>,
    b: Seq<u8>,
    rest: Result<Seq<u8>, Unwritten>,
)
    requires
        head.is_prefix_of(before),
    ensures
        head.is_prefix_of(before + b),
        joined(before.skip(head.len() as int), joined(b, rest)) == joined(
            (before + b).skip(head.len() as int),
            rest,
        ),
{
    assert(before.skip(head.len() as int) + b =~= (before + b).skip(head.len() as int));
    let more = match rest {
        Ok(more) => more,
        Err(e) => e.written,
    };
    assert(before.skip(head.len() as int) + (b + more) =~= (before + b).skip(head.len() as int)
        + more);
    assert(before =~= head + before.skip(head.len() as int));
    assert((before + b).take(head.len() as int) =~= head);
}

/// Appends the entries of a table outside its sequence part.
fn write_table_hash(
    hash: &Vec<(LuaValue, LuaValue)>,
    array_size: usize,
    buf: &mut Vec<u8>,
    depth: usize,
    room: usize,
) -> (r: Result<(), String>)
    ensures
        appended(
            old(buf)@,
            final(buf)@,
            r,
            packed_entries(view_entries(*hash), array_size as nat, depth as int, room as int),
        ),
    decreases hash, 0nat,
{
    let ghost head = old(buf)@;
    let ghost es = view_entries(*hash);
    let ghost n = array_size as nat;
    let ghost want = packed_entries(es, n, depth as int, room as int);
    let mut i: usize = 0;
    assert(es.skip(0) =~= es);
    assert(want == joined(buf@.skip(head.len() as int), want)) by {
        assert(buf@.skip(head.len() as int) =~= Seq::empty());
        match want {
            Ok(b) => assert(Seq::empty() + b =~= b),
            Err(e) => assert(Seq::empty() + e.written =~= e.written),
        }
    }
    while i < hash.len()
        invariant
            es == view_entries(*hash),
            n == array_size,
            i <= es.len(),
            want == packed_entries(es, n, depth as int, room as int),
            head == old(buf)@,
            head.is_prefix_of(buf@),
            want == joined(
                buf@.skip(head.len() as int),
                packed_entries(es.skip(i as int), n, depth as int, room as int),
            ),
        decreases es.len() - i,
    {
        let ghost rest = es.skip(i as int);
        let ghost before = buf@;
        assert(rest[0] == (hash@[i as int].0@, hash@[i as int].1@));
        assert(rest.skip(1) =~= es.skip(i + 1));
        let skip: bool = match &hash[i].0 {
            LuaValue::Integer(key) => *key > 0 && (*key as u64) <= array_size as u64,
            _ => false,
        };
        if !skip {
            if let Err(m) = pack_value(&hash[i].0, buf, depth, room) {
                proof {
                    lemma_cut(head, before, packed_entries(rest, n, depth as int, room as int));
                }
                return Err(m);
            }
            let ghost mid = buf@;
            if let Err(m) = pack_value(&hash[i].1, buf, depth, room) {
                proof {
                    lemma_cut(head, before, packed_entries(rest, n, depth as int, room as int));
                    assert(buf@ =~= before + packed_entries(
                        rest,
                        n,
                        depth as int,
                        room as int,
                    )->Err_0.written);
                }
                return Err(m);
            }
            proof {
                let a = packed(rest[0].0, depth as int, room as int)->Ok_0;
                let b = packed(rest[0].1, depth as int, room as int)->Ok_0;
                let tail = packed_entries(rest.skip(1), n, depth as int, room as int);
                lemma_joined(head, before, a, joined(b, tail));
                lemma_joined(head, mid, b, tail);
            }
        }
        i = i + 1;
    }
    assert(es.skip(i as int) =~= Seq::empty());
    assert(buf@ =~= old(buf)@ + want->Ok_0) by {
        assert(want->Ok_0 =~= buf@.skip(head.len() as int));
        assert(buf@ =~= head + buf@.skip(head.len() as int));
    }
    Ok(())
}

/// Appends the head of a table and what its `__pairs` metamethod yields.
fn write_table_metapairs(w: &MetaPairs, buf: &mut Vec<u8>, depth: usize, room: usize) -> (r: Result<
    (),
    String,
>)
    ensures
        appended(
            old(buf)@,
            final(buf)@,
            r,
            joined(seq![tag(TYPE_TABLE, 0)], packed_walk(w@, depth as int, room as int)),
        ),
    decreases w, 0nat,
{
    buf.push(TYPE_TABLE);
    let ghost head = buf@;
    if let Err(m) = write_table_hash(&w.entries, 0, buf, depth, room) {
        proof {
            let e = packed_entries(w@.entries, 0, depth as int, room as int)->Err_0;
            assert(buf@ =~= old(buf)@ + (seq![tag(TYPE_TABLE, 0)] + e.written));
        }
        return Err(m);
    }
    match &w.failure {
        Some(f) => {
            proof {
                let b = packed_entries(w@.entries, 0, depth as int, room as int)->Ok_0;
                assert(buf@ =~= old(buf)@ + (seq![tag(TYPE_TABLE, 0)] + b));
            }
            return Err(take_pcall_error(f));
        },
        None => {},
    }
    proof {
        let b = packed_entries(w@.entries, 0, depth as int, room as int)->Ok_0;
        assert(buf@ =~= old(buf)@ + (seq![tag(TYPE_TABLE, 0)] + b));
    }
    Ok(())
}

} // verus!
