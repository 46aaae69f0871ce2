//! Serialization as callbacks see it: the arguments on the stack are packed,
//! and what was packed comes back onto the stack.
use vstd::prelude::*;

use crate::laux::{none_or_nil, slot_integer, LuaStack};
use crate::number::{integer64, signed64};
use crate::pack::{
    appended, joined, lemma_cut, lemma_joined, pack_value, packed, packed_items, MIN_STACK,
};
use crate::seri_laws::{
    arrived, arrived_items, holds_at, law_value_round_trip, lemma_split, wireable_items,
};
use crate::unpack::{
    decode_bytes, decode_error_text, lemma_left_fits, unpack_one, value_at, values_at, DecodeError,
    ReadBlock,
};
use crate::value::{copy_bytes, view_list, LuaValue, Val};

verus! {

/// Appends values one after another, up to the first that cannot be packed
/// whole.
pub fn pack_values(values: &Vec<LuaValue>, buf: &mut Vec<u8>, room: usize) -> (r: Result<
    (),
    String,
>)
    ensures
        appended(old(buf)@, final(buf)@, r, packed_items(view_list(*values), 0, room as int)),
{
    let ghost head = buf@;
    let ghost items = view_list(*values);
    let ghost want = packed_items(items, 0, room as int);
    let mut i: usize = 0;
    assert(items.skip(0) =~= items);
    assert(want == joined(buf@.skip(head.len() as int), want)) by {
        assert(buf@.skip(head.len() as int) =~= Seq::empty());
        match want {
            Ok(b) => assert(Seq::empty() + b =~= b),
            Err(e) => assert(Seq::empty() + e.written =~= e.written),
        }
    }
    while i < values.len()
        invariant
            items == view_list(*values),
            i <= items.len(),
            want == packed_items(items, 0, room as int),
            head == old(buf)@,
            head.is_prefix_of(buf@),
            want == joined(
                buf@.skip(head.len() as int),
                packed_items(items.skip(i as int), 0, room as int),
            ),
        decreases items.len() - i,
    {
        let ghost rest = items.skip(i as int);
        let ghost before = buf@;
        assert(rest[0] == values@[i as int]@);
        assert(rest.skip(1) =~= items.skip(i + 1));
        if let Err(m) = pack_value(&values[i], buf, 0, room) {
            proof {
                lemma_cut(head, before, packed_items(rest, 0, room as int));
            }
            return Err(m);
        }
        proof {
            lemma_joined(
                head,
                before,
                packed(rest[0], 0, room as int)->Ok_0,
                packed_items(rest.skip(1), 0, room as int),
            );
        }
        i = i + 1;
    }
    assert(items.skip(i as int) =~= Seq::empty());
    assert(buf@ =~= old(buf)@ + want->Ok_0) by {
        assert(want->Ok_0 =~= buf@.skip(head.len() as int));
        assert(buf@ =~= head + buf@.skip(head.len() as int));
    }
    Ok(())
}

/// Packs all values on the stack into a byte string of their own; there is none
/// without values.
pub fn pack(lua: &LuaStack) -> (r: Result<Option<Vec<u8>>, String>)
    requires
        lua.wf(),
    ensures
        if lua@.len() == 0 {
            r matches Ok(None)
        } else {
            match packed_items(lua@, 0, lua.room()) {
                Ok(b) => r matches Ok(Some(v)) && v@ == b,
                Err(e) => r matches Err(m) && m@ == e.message,
            }
        },
{
    if lua.slots.len() == 0 {
        return Ok(None);
    }
    let mut buf: Vec<u8> = Vec::new();
    pack_values(&lua.slots, &mut buf, lua.free())?;
    assert(Seq::<u8>::empty() + packed_items(lua@, 0, lua.room())->Ok_0 =~= packed_items(
        lua@,
        0,
        lua.room(),
    )->Ok_0);
    Ok(Some(buf))
}

/// Packs all values on the stack and puts the bytes on top as a string. Gives
/// the number of results.
pub fn pack_string(lua: &mut LuaStack) -> (r: Result<i32, String>)
    requires
        old(lua).wf(),
        old(lua).room() >= 1,
    ensures
        final(lua).wf(),
        final(lua).same_machine(*old(lua)),
        if old(lua)@.len() == 0 {
            r == Ok::<i32, String>(0) && final(lua)@ == old(lua)@
        } else {
            match packed_items(old(lua)@, 0, old(lua).room()) {
                Ok(b) => r == Ok::<i32, String>(1) && final(lua)@ == old(lua)@.push(
                    Val::Str(b, None),
                ),
                Err(e) => r matches Err(m) && m@ == e.message && final(lua)@ == old(lua)@,
            }
        },
{
    match pack(lua) {
        Ok(None) => Ok(0),
        Ok(Some(bytes)) => {
            lua.push_value(LuaValue::from_bytes(bytes));
            Ok(1)
        },
        Err(e) => Err(e),
    }
}

/// Empties the stack and reads every value of a byte string onto it; an empty
/// byte string leaves the stack alone. Gives the number of values. After an
/// error the stack holds the values read before it, and what the next one had
/// come to.
pub fn unpack_onto(lua: &mut LuaStack, data: &[u8]) -> (r: Result<i32, DecodeError>)
    requires
        old(lua).wf(),
        old(lua).limit >= MIN_STACK,
    ensures
        final(lua).wf(),
        final(lua).same_machine(*old(lua)),
        if data@.len() == 0 {
            r == Ok::<i32, DecodeError>(0) && final(lua)@ == old(lua)@
        } else {
            match values_at(data@, 0, Seq::empty(), old(lua).limit as int) {
                Ok(vs) => r matches Ok(n) && n == vs.len() && final(lua)@ == vs,
                Err((e, vs)) => r == Err::<i32, DecodeError>(e) && final(lua)@ == vs,
            }
        },
{
    if data.len() == 0 {
        return Ok(0);
    }
    lua.set_top(0);
    proof {
        lemma_values_fit(data@, 0, Seq::empty(), lua.limit as int);
    }
    match decode_bytes(data, lua.limit) {
        Ok(values) => {
            lua.slots = values;
            Ok(lua.top())
        },
        Err((e, values)) => {
            lua.slots = values;
            Err(e)
        },
    }
}

/// What is read from a byte string fits on the stack.
proof fn lemma_values_fit(buf: Seq<u8>, pos: int, done: Seq<Val>, limit: int)
    requires
        done.len() + 7 - done.len() % 8 <= limit,
    ensures
        match values_at(buf, pos, done, limit) {
            Ok(vs) => vs.len() <= limit,
            Err((_, vs)) => vs.len() <= limit,
        },
    decreases buf.len() - pos,
{
    if !(done.len() % 8 == 7 && limit - done.len() < 8) && pos < buf.len() {
        lemma_left_fits(buf, pos, 0, limit - done.len());
        if let Ok((v, p)) = value_at(buf, pos, 0, limit - done.len()) {
            if pos < p <= buf.len() {
                lemma_values_fit(buf, p, done.push(v), limit);
            }
        }
    }
}

/// Where a callback's serialized argument is.
#[derive(Debug)]
pub enum Source {
    /// There is nothing to read.
    Nothing,
    /// In a string on the stack.
    Bytes(Vec<u8>),
    /// In memory of the machine's host, which vouches for it.
    Memory { address: u64, len: u64 },
}

/// The address that a value stands for; null for values that stand for none.
pub open spec fn slot_address(v: Option<Val>) -> u64 {
    match v {
        Some(Val::Light(p)) => p,
        Some(Val::User(p, _)) => p,
        _ => 0,
    }
}

fn address_at(lua: &LuaStack, index: i32) -> (r: u64)
    requires
        lua.wf(),
        lua.acceptable(index as int),
    ensures
        r == slot_address(lua.slot(index as int)),
{
    match lua.at(index) {
        Some(LuaValue::LightUserData(p)) | Some(LuaValue::UserData(p, _)) => *p,
        _ => 0,
    }
}

/// Finds a callback's serialized argument: a string, or an address and a length.
pub fn unpack_source(lua: &LuaStack) -> (r: Result<Source, String>)
    requires
        lua.wf(),
    ensures
        match lua.slot(1) {
            None | Some(Val::Nil) => r matches Ok(Source::Nothing),
            Some(Val::Str(b, _)) => if b.len() == 0 {
                r matches Ok(Source::Nothing)
            } else {
                r matches Ok(Source::Bytes(v)) && v@ == b
            },
            Some(v) => match slot_integer(lua.slot(2)) {
                None => r matches Err(e) && e@ == "deserialize length must be an integer"@,
                Some(n) => if n < 0 {
                    r matches Err(e) && e@ == "deserialize negative length"@
                } else if n == 0 {
                    r matches Ok(Source::Nothing)
                } else if slot_address(lua.slot(1)) == 0 {
                    r matches Err(e) && e@ == "deserialize null pointer"@
                } else {
                    r matches Ok(Source::Memory { address, len }) && address == slot_address(
                        lua.slot(1),
                    ) && len == n
                },
            },
        },
{
    match lua.at(1) {
        None | Some(LuaValue::Nil) => Ok(Source::Nothing),
        Some(LuaValue::String(s)) => {
            if s.bytes.len() == 0 {
                Ok(Source::Nothing)
            } else {
                Ok(Source::Bytes(copy_bytes(s.bytes.as_slice())))
            }
        },
        Some(_) => {
            let address = address_at(lua, 1);
            match lua.get::<i64>(2) {
                Err(_) => Err("deserialize length must be an integer".to_owned()),
                Ok(n) => {
                    if n < 0 {
                        Err("deserialize negative length".to_owned())
                    } else if n == 0 {
                        Ok(Source::Nothing)
                    } else if address == 0 {
                        Err("deserialize null pointer".to_owned())
                    } else {
                        Ok(Source::Memory { address, len: n as u64 })
                    }
                },
            }
        },
    }
}

/// Reads the values packed in a string argument onto the stack and gives their
/// number. An argument in memory is handed back to be read there. After a
/// decoding error the stack holds the values read before it, and what the next
/// one had come to.
pub fn unpack(lua: &mut LuaStack) -> (r: Result<Result<i32, (u64, u64)>, String>)
    requires
        old(lua).wf(),
        old(lua).limit >= MIN_STACK,
    ensures
        final(lua).wf(),
        final(lua).same_machine(*old(lua)),
        match old(lua).slot(1) {
            None | Some(Val::Nil) => r matches Ok(Ok(0)) && final(lua)@ == old(lua)@,
            Some(Val::Str(b, _)) => if b.len() == 0 {
                r matches Ok(Ok(0)) && final(lua)@ == old(lua)@
            } else {
                match values_at(b, 0, Seq::empty(), old(lua).limit as int) {
                    Ok(vs) => r matches Ok(Ok(n)) && n == vs.len() && final(lua)@ == vs,
                    Err((e, vs)) => r matches Err(m) && m@ == decode_error_text(e) && final(lua)@
                        == vs,
                }
            },
            Some(_) => final(lua)@ == old(lua)@ && match slot_integer(old(lua).slot(2)) {
                None => r matches Err(e) && e@ == "deserialize length must be an integer"@,
                Some(n) => if n < 0 {
                    r matches Err(e) && e@ == "deserialize negative length"@
                } else if n == 0 {
                    r matches Ok(Ok(0))
                } else if slot_address(old(lua).slot(1)) == 0 {
                    r matches Err(e) && e@ == "deserialize null pointer"@
                } else {
                    r matches Ok(Err((p, len))) && p == slot_address(old(lua).slot(1)) && len == n
                },
            },
        },
{
    match unpack_source(lua) {
        Err(e) => Err(e),
        Ok(Source::Nothing) => Ok(Ok(0)),
        Ok(Source::Memory { address, len }) => Ok(Err((address, len))),
        Ok(Source::Bytes(bytes)) => match unpack_onto(lua, bytes.as_slice()) {
            Ok(n) => Ok(Ok(n)),
            Err(e) => Err(e.message()),
        },
    }
}

/// What a callback that reads one value of a buffer was asked for: the address
/// of the buffer and whether to take the value out, or nothing.
pub fn peek_request(lua: &LuaStack) -> (r: Result<Option<(u64, bool)>, String>)
    requires
        lua.wf(),
    ensures
        match lua.slot(1) {
            None | Some(Val::Nil) => r matches Ok(None),
            Some(Val::Light(p)) => if p == 0 {
                r matches Err(e) && e@ == "null buffer pointer"@
            } else {
                r matches Ok(Some((q, seek))) && q == p && seek == !(none_or_nil(lua.slot(2))
                    || lua.slot(2) == Some(Val::Bool(false)))
            },
            Some(_) => r matches Err(e) && e@ == "peek_one need lightuserdata"@,
        },
{
    match lua.at(1) {
        None | Some(LuaValue::Nil) => Ok(None),
        Some(LuaValue::LightUserData(p)) => {
            let seek = match lua.opt_truthy(2) {
                Some(b) => b,
                None => false,
            };
            if *p == 0 {
                Err("null buffer pointer".to_owned())
            } else {
                Ok(Some((*p, seek)))
            }
        },
        Some(_) => Err("peek_one need lightuserdata".to_owned()),
    }
}

/// Reads the first value of a buffer that starts at `address`: the value, the
/// address behind it and the number of bytes left go on top. Gives the number
/// of results and of bytes read. After an error what the value had come to is
/// on top.
pub fn peek_one(lua: &mut LuaStack, data: &[u8], address: u64) -> (r: Result<
    (i32, usize),
    String,
>)
    requires
        old(lua).wf(),
        old(lua).room() >= 3,
        address + data@.len() <= u64::MAX,
    ensures
        final(lua).wf(),
        final(lua).same_machine(*old(lua)),
        if data@.len() == 0 {
            r matches Ok((0, 0)) && final(lua)@ == old(lua)@
        } else {
            match value_at(data@, 0, 0, old(lua).room()) {
                Ok((v, p)) => r matches Ok((n, used)) && n == 3 && used == p && final(lua)@ == old(
                    lua)@.push(v).push(Val::Light((address + p) as u64)).push(
                    Val::Int(signed64((data@.len() - p) as nat) as i64),
                ),
                Err(s) => r matches Err(m) && m@ == decode_error_text(s.error) && final(lua)@
                    == old(lua)@ + s.left,
            }
        },
{
    if data.len() == 0 {
        return Ok((0, 0));
    }
    let mut br = ReadBlock::new(data);
    proof {
        lemma_left_fits(data@, 0, 0, lua.room());
    }
    match unpack_one(&mut br, 0, lua.free()) {
        Err(left) => {
            let mut left = left;
            let ghost above = view_list(left);
            lua.slots.append(&mut left);
            assert(lua@ =~= old(lua)@ + above);
            Err(br.error().message())
        },
        Ok(v) => {
            lua.push_value(v);
            lua.push_value(LuaValue::LightUserData(address + br.offset() as u64));
            lua.push_value(LuaValue::Integer(integer64(br.len() as u64)));
            Ok((3, br.offset()))
        },
    }
}

proof fn lemma_values_back(
    vs: Seq<Val>,
    writer: int,
    limit: int,
    buf: Seq<u8>,
    pos: int,
    done: Seq<Val>,
)
    requires
        wireable_items(vs),
        packed_items(vs, 0, writer) is Ok,
        limit >= done.len() + vs.len() + 86,
        holds_at(buf, pos, packed_items(vs, 0, writer)->Ok_0),
        pos + packed_items(vs, 0, writer)->Ok_0.len() == buf.len(),
    ensures
        values_at(buf, pos, done, limit) == Ok::<Seq<Val>, (DecodeError, Seq<Val>)>(
            arrived_items(done, vs),
        ),
    decreases vs.len(),
{
    if vs.len() > 0 {
        let a = packed(vs[0], 0, writer)->Ok_0;
        let rest = packed_items(vs.skip(1), 0, writer)->Ok_0;
        lemma_split(buf, pos, a, rest);
        law_value_round_trip(vs[0], 0, writer, limit - done.len(), buf, pos);
        lemma_values_back(vs.skip(1), writer, limit, buf, pos + a.len(), done.push(arrived(vs[0])));
    }
}

/// What was packed from a stack unpacks to the same values in the same order, on
/// any stack that has room for them and for the deepest nesting.
pub proof fn law_stack_round_trip(vs: Seq<Val>, writer: int, limit: int)
    requires
        wireable_items(vs),
        packed_items(vs, 0, writer) is Ok,
        limit >= vs.len() + 86,
    ensures
        values_at(packed_items(vs, 0, writer)->Ok_0, 0, Seq::empty(), limit) == Ok::<
            Seq<Val>,
            (DecodeError, Seq<Val>),
        >(arrived_items(Seq::empty(), vs)),
{
    let b = packed_items(vs, 0, writer)->Ok_0;
    assert(b.subrange(0, b.len() as int) =~= b);
    lemma_values_back(vs, writer, limit, b, 0, Seq::empty());
}

} // verus!
