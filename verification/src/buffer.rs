//! Byte buffers: building them from Lua values and reading them.
use vstd::prelude::*;
use vstd::string::*;
use vstd::utf8::*;

use crate::laux::{lua_array_size, strict_len, LuaStack};
use crate::pack::{appended, chained, joined, lemma_cut, lemma_joined, refused, Unwritten};
use crate::text::{decimal, i64_text};
use crate::value::{copy_bytes, kind_name, kind_of, view_list, LuaValue, TableValue, Val};

verus! {

/// Tables may nest this deep.
pub const MAX_DEPTH: usize = 32;

/// Bytes to read, and how much room there is in front of them: what was reserved
/// or has been read.
#[derive(Debug, PartialEq)]
pub struct Buffer {
    pub bytes: Vec<u8>,
    pub front: usize,
}

impl Buffer {
    /// An empty buffer with room in front.
    pub fn new(front: usize) -> (r: Buffer)
        ensures
            r.bytes@ == Seq::<u8>::empty(),
            r.front == front,
    {
        Buffer { bytes: Vec::new(), front }
    }

    /// The number of bytes to read.
    pub fn len(&self) -> (r: usize)
        ensures
            r == self.bytes@.len(),
    {
        self.bytes.len()
    }

    /// Drops everything.
    pub fn clear(&mut self)
        ensures
            final(self).bytes@ == Seq::<u8>::empty(),
            final(self).front == old(self).front,
    {
        self.bytes.truncate(0);
        assert(self.bytes@ =~= Seq::<u8>::empty());
    }

    /// Appends bytes.
    pub fn write_slice(&mut self, bytes: &[u8])
        ensures
            final(self).bytes@ == old(self).bytes@ + bytes@,
            final(self).front == old(self).front,
    {
        self.bytes.extend_from_slice(bytes);
        assert(self.bytes@ =~= old(self).bytes@ + bytes@);
    }

    /// Puts bytes in front, if there is room for them.
    pub fn write_front(&mut self, bytes: &[u8]) -> (r: bool)
        ensures
            r == (bytes@.len() <= old(self).front),
            if r {
                &&& final(self).bytes@ == bytes@ + old(self).bytes@
                &&& final(self).front == old(self).front - bytes@.len()
            } else {
                *final(self) == *old(self)
            },
    {
        if bytes.len() > self.front {
            return false;
        }
        let mut all = copy_bytes(bytes);
        all.extend_from_slice(self.bytes.as_slice());
        assert(all@ =~= bytes@ + old(self).bytes@);
        self.bytes = all;
        self.front = self.front - bytes.len();
        true
    }

    /// Takes bytes off the front; the room there grows by as much.
    pub fn consume(&mut self, n: usize)
        requires
            n <= old(self).bytes@.len(),
            old(self).front + n <= usize::MAX,
        ensures
            final(self).bytes@ == old(self).bytes@.skip(n as int),
            final(self).front == old(self).front + n,
    {
        let rest = copy_bytes(
            vstd::slice::slice_subrange(self.bytes.as_slice(), n, self.bytes.len()),
        );
        assert(rest@ =~= old(self).bytes@.skip(n as int));
        self.bytes = rest;
        self.front = self.front + n;
    }
}

/// The bytes of a value that stands for itself, if it does.
pub open spec fn plain_bytes(v: Val) -> Option<Seq<u8>> {
    match v {
        Val::Nil => Some(Seq::empty()),
        Val::Num(_, text) => Some(encode_utf8(text)),
        Val::Int(i) => Some(encode_utf8(decimal(i as int))),
        Val::Bool(b) => Some(
            if b {
                encode_utf8("true"@)
            } else {
                encode_utf8("false"@)
            },
        ),
        Val::Str(b, _) => Some(b),
        _ => None,
    }
}

/// The bytes of a value in a concatenation: a table gives those of its elements
/// where it is a sequence, and none where it is not.
pub open spec fn concat_bytes(v: Val, depth: int) -> Result<Seq<u8>, Unwritten>
    decreases v,
{
    match v {
        Val::Table(t) => if depth + 1 > MAX_DEPTH {
            Err(refused("buffer.concat too depth table"@))
        } else if strict_len(t) == 0 {
            Ok(Seq::empty())
        } else {
            concat_items(t.array, depth + 1)
        },
        _ => match plain_bytes(v) {
            Some(b) => Ok(b),
            None => Err(refused("buffer.concat unsupport type :"@ + kind_name(kind_of(v)))),
        },
    }
}

/// The bytes of values in a concatenation.
pub open spec fn concat_items(items: Seq<Val>, depth: int) -> Result<Seq<u8>, Unwritten>
    decreases items,
{
    if items.len() == 0 {
        Ok(Seq::empty())
    } else {
        chained(concat_bytes(items[0], depth), concat_items(items.skip(1), depth))
    }
}

/// Appends a value that stands for itself; whether it does.
pub fn write_plain(writer: &mut Buffer, v: &LuaValue) -> (r: bool)
    ensures
        final(writer).front == old(writer).front,
        match plain_bytes(v@) {
            Some(b) => r && final(writer).bytes@ == old(writer).bytes@ + b,
            None => !r && final(writer).bytes@ == old(writer).bytes@,
        },
{
    match v {
        LuaValue::Nil => {
            assert(writer.bytes@ + Seq::<u8>::empty() =~= writer.bytes@);
        },
        LuaValue::Number(n) => {
            writer.write_slice(n.text.as_str().as_bytes());
        },
        LuaValue::Integer(i) => {
            writer.write_slice(i64_text(*i).as_str().as_bytes());
        },
        LuaValue::Boolean(b) => {
            let s = if *b {
                "true"
            } else {
                "false"
            };
            writer.write_slice(s.as_bytes());
        },
        LuaValue::String(s) => {
            writer.write_slice(s.bytes.as_slice());
        },
        _ => {
            return false;
        },
    }
    true
}

/// The report of a value that cannot be written.
pub fn unsupported(prefix: &str, v: &LuaValue) -> (r: String)
    ensures
        r@ == prefix@ + kind_name(kind_of(v@)),
{
    let mut m = prefix.to_owned();
    m.append(v.kind().name());
    m
}

/// Appends a value to a concatenation.
pub fn concat_one(writer: &mut Buffer, v: &LuaValue, depth: usize) -> (r: Result<(), String>)
    ensures
        final(writer).front == old(writer).front,
        if depth > MAX_DEPTH {
            r matches Err(m) && m@ == "buffer.concat too depth table"@ && final(writer).bytes@
                == old(writer).bytes@
        } else {
            appended(old(writer).bytes@, final(writer).bytes@, r, concat_bytes(v@, depth as int))
        },
    decreases v, 0nat,
{
    if depth > MAX_DEPTH {
        return Err("buffer.concat too depth table".to_owned());
    }
    match v {
        LuaValue::Table(t) => concat_table(writer, t, depth + 1),
        _ => {
            if write_plain(writer, v) {
                Ok(())
            } else {
                Err(unsupported("buffer.concat unsupport type :", v))
            }
        },
    }
}

/// Appends the elements of a table to a concatenation.
fn concat_table(writer: &mut Buffer, t: &TableValue, depth: usize) -> (r: Result<(), String>)
    requires
        depth <= MAX_DEPTH + 1,
    ensures
        final(writer).front == old(writer).front,
        appended(
            old(writer).bytes@,
            final(writer).bytes@,
            r,
            concat_bytes(Val::Table(t@), depth - 1),
        ),
    decreases t, 0nat,
{
    if depth > MAX_DEPTH {
        return Err("buffer.concat too depth table".to_owned());
    }
    if lua_array_size(t) == 0 {
        assert(writer.bytes@ + Seq::<u8>::empty() =~= writer.bytes@);
        return Ok(());
    }
    concat_array(writer, &t.array, depth)
}

/// Appends values to a concatenation.
fn concat_array(writer: &mut Buffer, items: &Vec<LuaValue>, depth: usize) -> (r: Result<
    (),
    String,
>)
    requires
        depth <= MAX_DEPTH,
    ensures
        final(writer).front == old(writer).front,
        appended(
            old(writer).bytes@,
            final(writer).bytes@,
            r,
            concat_items(view_list(*items), depth as int),
        ),
    decreases items, 0nat,
{
    let ghost head = writer.bytes@;
    let ghost vs = view_list(*items);
    let ghost want = concat_items(vs, depth as int);
    let mut i: usize = 0;
    assert(vs.skip(0) =~= vs);
    assert(want == joined(writer.bytes@.skip(head.len() as int), want)) by {
        assert(writer.bytes@.skip(head.len() as int) =~= Seq::empty());
        match want {
            Ok(b) => assert(Seq::empty() + b =~= b),
            Err(e) => assert(Seq::empty() + e.written =~= e.written),
        }
    }
    while i < items.len()
        invariant
            depth <= MAX_DEPTH,
            vs == view_list(*items),
            i <= vs.len(),
            want == concat_items(vs, depth as int),
            head == old(writer).bytes@,
            writer.front == old(writer).front,
            head.is_prefix_of(writer.bytes@),
            want == joined(
                writer.bytes@.skip(head.len() as int),
                concat_items(vs.skip(i as int), depth as int),
            ),
        decreases vs.len() - i,
    {
        let ghost rest = vs.skip(i as int);
        let ghost before = writer.bytes@;
        assert(rest[0] == items@[i as int]@);
        assert(rest.skip(1) =~= vs.skip(i + 1));
        if let Err(m) = concat_one(writer, &items[i], depth) {
            proof {
                lemma_cut(head, before, concat_items(rest, depth as int));
            }
            return Err(m);
        }
        proof {
            lemma_joined(
                head,
                before,
                concat_bytes(rest[0], depth as int)->Ok_0,
                concat_items(rest.skip(1), depth as int),
            );
        }
        i = i + 1;
    }
    assert(vs.skip(i as int) =~= Seq::empty());
    assert(writer.bytes@ =~= head + want->Ok_0) by {
        assert(want->Ok_0 =~= writer.bytes@.skip(head.len() as int));
        assert(writer.bytes@ =~= head + writer.bytes@.skip(head.len() as int));
    }
    Ok(())
}

/// Concatenates all values on the stack into a buffer with room in front; there
/// is none without values.
pub fn concat(lua: &LuaStack, front: usize) -> (r: Result<Option<Buffer>, String>)
    requires
        lua.wf(),
    ensures
        if lua@.len() == 0 {
            r matches Ok(None)
        } else {
            match concat_items(lua@, 0) {
                Ok(b) => r matches Ok(Some(buf)) && buf.bytes@ == b && buf.front == front,
                Err(e) => r matches Err(m) && m@ == e.message,
            }
        },
{
    if lua.slots.len() == 0 {
        return Ok(None);
    }
    let mut buf = Buffer::new(front);
    concat_array(&mut buf, &lua.slots, 0)?;
    assert(Seq::<u8>::empty() + concat_items(lua@, 0)->Ok_0 =~= concat_items(lua@, 0)->Ok_0);
    Ok(Some(buf))
}

/// Concatenates all values on the stack and puts the bytes on top as a string.
/// Gives the number of results.
pub fn concat_string(lua: &mut LuaStack) -> (r: Result<i32, String>)
    requires
        old(lua).wf(),
        old(lua).room() >= 1,
    ensures
        final(lua).wf(),
        final(lua).same_machine(*old(lua)),
        if old(lua)@.len() == 0 {
            r == Ok::<i32, String>(0) && final(lua)@ == old(lua)@
        } else {
            match concat_items(old(lua)@, 0) {
                Ok(b) => r == Ok::<i32, String>(1) && final(lua)@ == old(lua)@.push(
                    Val::Str(b, None),
                ),
                Err(e) => r matches Err(m) && m@ == e.message && final(lua)@ == old(lua)@,
            }
        },
{
    match concat(lua, 0) {
        Ok(None) => Ok(0),
        Ok(Some(buf)) => {
            lua.push_value(LuaValue::from_bytes(buf.bytes));
            Ok(1)
        },
        Err(e) => Err(e),
    }
}

/// The address of the buffer that a callback is given.
pub fn get_buffer_ptr(lua: &LuaStack) -> (r: Result<u64, String>)
    requires
        lua.wf(),
    ensures
        match lua.slot(1) {
            Some(Val::Light(p)) => if p != 0 {
                r == Ok::<u64, String>(p)
            } else {
                r matches Err(m) && m@ == "bad argument #1 (invalid `Buffer` pointer)"@
            },
            _ => r matches Err(m) && m@ == "bad argument #1 (invalid `Buffer` pointer)"@,
        },
{
    match lua.value(1).as_light_userdata() {
        Some(p) => if p != 0 {
            Ok(p)
        } else {
            Err("bad argument #1 (invalid `Buffer` pointer)".to_owned())
        },
        None => Err("bad argument #1 (invalid `Buffer` pointer)".to_owned()),
    }
}

} // verus!
