//! Reading from and writing to buffers, as callbacks do.
use vstd::prelude::*;
use vstd::string::*;
use vstd::utf8::*;

use crate::buffer::{plain_bytes, unsupported, write_plain, Buffer};
use crate::laux::{slot_integer, slot_kind, type_error_text, LuaStack};
use crate::words::{lemma_wraps, read_isize, read_usize, slot_isize, slot_usize};
use crate::number::{integer64, signed64};
use crate::pack::{le, le_value, signed32};
use crate::seri_laws::lemma_le_value_le;
use crate::text::{decimal, from_utf8, push_char, push_u64, text_chars};
use crate::unpack::{lemma_le_value_bound, lemma_pow256, pow256};
use crate::value::{copy_bytes, kind_name, kind_of, lemma_list_push, view_list, LuaValue, Val};

verus! {

/// The number in bytes, least or most significant first.
pub open spec fn number_of(b: Seq<u8>, little: bool) -> nat {
    if little {
        le_value(b)
    } else {
        le_value(b.reverse())
    }
}

/// The integer that 16 bits stand for.
pub open spec fn signed16(n: nat) -> int {
    if n >= 0x8000 {
        n - 0x1_0000
    } else {
        n as int
    }
}

/// Where reading by a format stands: the place, the byte order, and what was
/// read.
pub struct Scan {
    pub pos: int,
    pub little: bool,
    pub out: Seq<Val>,
}

/// What one letter of a format reads, from a buffer at an address.
pub open spec fn read_letter(buf: Seq<u8>, address: u64, s: Scan, c: char) -> Result<
    Scan,
    Seq<char>,
> {
    let left = buf.len() - s.pos;
    let short = Err("bad argument #2 (data out of range)"@);
    let two = number_of(buf.subrange(s.pos, s.pos + 2), s.little);
    let four = number_of(buf.subrange(s.pos, s.pos + 4), s.little);
    if c == '>' {
        Ok(Scan { little: false, ..s })
    } else if c == '<' {
        Ok(Scan { little: true, ..s })
    } else if c == 'h' {
        if left < 2 {
            short
        } else {
            Ok(Scan { pos: s.pos + 2, out: s.out.push(Val::Int(signed16(two) as i64)), ..s })
        }
    } else if c == 'H' {
        if left < 2 {
            short
        } else {
            Ok(Scan { pos: s.pos + 2, out: s.out.push(Val::Int(two as i64)), ..s })
        }
    } else if c == 'i' {
        if left < 4 {
            short
        } else {
            Ok(Scan { pos: s.pos + 4, out: s.out.push(Val::Int(signed32(four) as i64)), ..s })
        }
    } else if c == 'I' {
        if left < 4 {
            short
        } else {
            Ok(Scan { pos: s.pos + 4, out: s.out.push(Val::Int(four as i64)), ..s })
        }
    } else if c == 'C' {
        Ok(
            Scan {
                out: s.out.push(Val::Light((address + s.pos) as u64)).push(
                    Val::Int(signed64(left as nat) as i64),
                ),
                ..s
            },
        )
    } else if c == 'Z' {
        Ok(Scan { out: s.out.push(Val::Str(buf, None)), ..s })
    } else {
        Err("invalid format option '"@ + seq![c] + "'"@)
    }
}

/// What the letters of a format read, one after another.
pub open spec fn read_format(buf: Seq<u8>, address: u64, s: Scan, format: Seq<char>) -> Result<
    Scan,
    Seq<char>,
>
    decreases format.len(),
{
    if format.len() == 0 {
        Ok(s)
    } else {
        match read_letter(buf, address, s, format[0]) {
            Err(e) => Err(e),
            Ok(next) => read_format(buf, address, next, format.skip(1)),
        }
    }
}

/// What a callback that reads a buffer gives: the values of a format from a
/// place on, or the bytes from a place on.
pub open spec fn unpacked(
    buf: Seq<u8>,
    address: u64,
    format: Option<Val>,
    third: Option<Val>,
) -> Result<Seq<Val>, Seq<char>> {
    match format {
        Some(Val::Str(b, _)) => {
            let letters = if valid_utf8(b) {
                decode_utf8(b)
            } else {
                Seq::empty()
            };
            let pos = slot_usize(third, 0);
            if pos > buf.len() {
                Err("bad argument #3 (out of range)"@)
            } else {
                match read_format(
                    buf,
                    address,
                    Scan { pos, little: true, out: Seq::empty() },
                    letters,
                ) {
                    Err(e) => Err(e),
                    Ok(s) => Ok(s.out),
                }
            }
        },
        _ => {
            let pos = slot_usize(format, 0);
            let count = slot_isize(third, -1);
            if pos > buf.len() {
                Err("bad argument #2 (out of range)"@)
            } else if count < 0 || count > buf.len() - pos {
                Ok(seq![Val::Str(buf.skip(pos), None)])
            } else {
                Ok(seq![Val::Str(buf.subrange(pos, pos + count), None)])
            }
        },
    }
}

/// The number in `k` bytes at a place.
fn read_number(buf: &[u8], pos: usize, k: usize, little: bool) -> (r: u64)
    requires
        k <= 8,
        pos + k <= buf@.len(),
    ensures
        r == number_of(buf@.subrange(pos as int, pos + k), little),
        r < pow256(k as nat),
{
    let ghost sub = buf@.subrange(pos as int, pos + k);
    let ghost b = if little {
        sub
    } else {
        sub.reverse()
    };
    let mut i: usize = k;
    let mut n: u64 = 0;
    assert(b.skip(k as int) =~= Seq::empty());
    let total = buf.len();
    while i > 0
        invariant
            i <= k <= 8,
            pos + k <= buf@.len() == total,
            sub == buf@.subrange(pos as int, pos + k),
            b == if little {
                sub
            } else {
                sub.reverse()
            },
            n == le_value(b.skip(i as int)),
        decreases i,
    {
        let ghost rest = b.skip(i - 1);
        assert(rest.skip(1) =~= b.skip(i as int));
        proof {
            lemma_le_value_bound(rest);
            lemma_pow256();
            crate::unpack::lemma_pow256_grows(rest.len(), 8);
        }
        i = i - 1;
        let at = if little {
            pos + i
        } else {
            pos + (k - 1 - i)
        };
        assert(rest[0] == buf@[at as int]);
        n = buf[at] as u64 + 256 * n;
    }
    assert(b.skip(0) =~= b);
    proof {
        lemma_le_value_bound(b);
    }
    n
}

/// Reads the values of a format, or bytes, from a buffer at an address.
pub fn unpack(buf: &Buffer, address: u64, lua: &LuaStack) -> (r: Result<Vec<LuaValue>, String>)
    requires
        lua.wf(),
        address + buf.bytes@.len() <= u64::MAX,
    ensures
        match unpacked(buf.bytes@, address, lua.slot(2), lua.slot(3)) {
            Ok(vs) => r matches Ok(got) && view_list(got) == vs,
            Err(e) => r matches Err(m) && m@ == e,
        },
{
    match lua.at(2) {
        Some(LuaValue::String(s)) => {
            let format: Vec<char> = match from_utf8(s.bytes.as_slice()) {
                Ok(text) => text_chars(text),
                Err(_) => Vec::new(),
            };
            let pos = read_usize(lua, 3, 0);
            if pos > buf.bytes.len() {
                return Err("bad argument #3 (out of range)".to_owned());
            }
            unpack_format(buf, address, pos, &format)
        },
        _ => {
            let pos = read_usize(lua, 2, 0);
            let len = buf.bytes.len();
            if pos > len {
                return Err("bad argument #2 (out of range)".to_owned());
            }
            let count_arg = read_isize(lua, 3, -1);
            let count: usize = if count_arg < 0 || (count_arg as usize) > len - pos {
                len - pos
            } else {
                count_arg as usize
            };
            let bytes = copy_bytes(
                vstd::slice::slice_subrange(buf.bytes.as_slice(), pos, pos + count),
            );
            let v = LuaValue::from_bytes(bytes);
            let mut out: Vec<LuaValue> = Vec::new();
            out.push(v);
            assert(buf.bytes@.skip(pos as int) =~= buf.bytes@.subrange(pos as int, len as int));
            assert(view_list(out) =~= seq![v@]);
            Ok(out)
        },
    }
}

/// Reads the values of a format from a place on.
fn unpack_format(buf: &Buffer, address: u64, start: usize, format: &Vec<char>) -> (r: Result<
    Vec<LuaValue>,
    String,
>)
    requires
        start <= buf.bytes@.len(),
        address + buf.bytes@.len() <= u64::MAX,
    ensures
        match read_format(
            buf.bytes@,
            address,
            Scan { pos: start as int, little: true, out: Seq::empty() },
            format@,
        ) {
            Ok(s) => r matches Ok(got) && view_list(got) == s.out,
            Err(e) => r matches Err(m) && m@ == e,
        },
{
    let mut out: Vec<LuaValue> = Vec::new();
    let mut pos = start;
    let mut little = true;
    let len = buf.bytes.len();
    let ghost want = read_format(
        buf.bytes@,
        address,
        Scan { pos: start as int, little: true, out: Seq::empty() },
        format@,
    );
    let mut i: usize = 0;
    assert(format@.skip(0) =~= format@);
    assert(view_list(out) =~= Seq::empty());
    proof {
        lemma_pow256();
    }
    while i < format.len()
        invariant
            pos <= len == buf.bytes@.len(),
            address + len <= u64::MAX,
            i <= format@.len(),
            pow256(2) == 0x1_0000,
            pow256(4) == 0x1_0000_0000,
            want == read_format(
                buf.bytes@,
                address,
                Scan { pos: start as int, little: true, out: Seq::empty() },
                format@,
            ),
            want == read_format(
                buf.bytes@,
                address,
                Scan { pos: pos as int, little, out: view_list(out) },
                format@.skip(i as int),
            ),
        decreases format@.len() - i,
    {
        let c = format[i];
        let ghost rest = format@.skip(i as int);
        let ghost before = out;
        assert(rest[0] == c);
        assert(rest.skip(1) =~= format@.skip(i + 1));
        if c == '>' {
            little = false;
        } else if c == '<' {
            little = true;
        } else if c == 'h' || c == 'H' {
            if len - pos < 2 {
                return Err("bad argument #2 (data out of range)".to_owned());
            }
            let n = read_number(buf.bytes.as_slice(), pos, 2, little);
            let v = if c == 'h' && n >= 0x8000 {
                LuaValue::Integer(n as i64 - 0x1_0000)
            } else {
                LuaValue::Integer(n as i64)
            };
            out.push(v);
            proof {
                lemma_list_push(before, out, v);
            }
            pos = pos + 2;
        } else if c == 'i' || c == 'I' {
            if len - pos < 4 {
                return Err("bad argument #2 (data out of range)".to_owned());
            }
            let n = read_number(buf.bytes.as_slice(), pos, 4, little);
            let v = if c == 'i' && n >= 0x8000_0000 {
                LuaValue::Integer(n as i64 - 0x1_0000_0000)
            } else {
                LuaValue::Integer(n as i64)
            };
            out.push(v);
            proof {
                lemma_list_push(before, out, v);
            }
            pos = pos + 4;
        } else if c == 'C' {
            let p = LuaValue::LightUserData(address + pos as u64);
            out.push(p);
            proof {
                lemma_list_push(before, out, p);
            }
            let ghost mid = out;
            let n = LuaValue::Integer(integer64((len - pos) as u64));
            out.push(n);
            proof {
                lemma_list_push(mid, out, n);
            }
        } else if c == 'Z' {
            let v = LuaValue::from_bytes(copy_bytes(buf.bytes.as_slice()));
            out.push(v);
            proof {
                lemma_list_push(before, out, v);
            }
        } else {
            let mut m = "invalid format option '".to_owned();
            push_char(&mut m, c);
            m.append("'");
            assert(m@ =~= "invalid format option '"@ + seq![c] + "'"@);
            return Err(m);
        }
        i = i + 1;
    }
    assert(format@.skip(i as int) =~= Seq::empty());
    Ok(out)
}

/// The capacity that a new buffer is asked for.
pub fn new_capacity(lua: &LuaStack, default: usize) -> (r: Result<usize, String>)
    requires
        lua.wf(),
    ensures
        ({
            let n = slot_usize(lua.slot(1), default as int);
            if n >= usize::MAX / 2 {
                r matches Err(m) && m@ == "bad argument #1 (invalid capacity)"@
            } else {
                r matches Ok(got) && got == n
            }
        }),
{
    let capacity = read_usize(lua, 1, default);
    if capacity >= usize::MAX / 2 {
        return Err("bad argument #1 (invalid capacity)".to_owned());
    }
    Ok(capacity)
}

/// Takes bytes off the front of a buffer, as many as the second argument says.
pub fn read(buf: &mut Buffer, lua: &LuaStack) -> (r: Result<Vec<u8>, String>)
    requires
        lua.wf(),
        old(buf).front + old(buf).bytes@.len() <= usize::MAX,
    ensures
        match slot_integer(lua.slot(2)) {
            None => {
                &&& r matches Err(m) && m@ == type_error_text("integer"@, slot_kind(lua.slot(2)))
                &&& *final(buf) == *old(buf)
            },
            Some(_) => {
                let n = slot_usize(lua.slot(2), 0);
                if n > old(buf).bytes@.len() {
                    &&& r matches Err(m) && m@ == "bad argument #2 (out of range)"@
                    &&& *final(buf) == *old(buf)
                } else {
                    &&& r matches Ok(b) && b@ == old(buf).bytes@.take(n)
                    &&& final(buf).bytes@ == old(buf).bytes@.skip(n)
                    &&& final(buf).front == old(buf).front + n
                }
            },
        },
{
    let len: usize = match lua.get::<usize>(2) {
        Ok(n) => n,
        Err(e) => {
            return Err(e.to_string());
        },
    };
    proof {
        let i = slot_integer(lua.slot(2))->0;
        lemma_wraps(i as int, len as int, 0, usize::MAX as int);
    }
    if len > buf.bytes.len() {
        return Err("bad argument #2 (out of range)".to_owned());
    }
    let bytes = copy_bytes(vstd::slice::slice_subrange(buf.bytes.as_slice(), 0, len));
    assert(bytes@ =~= buf.bytes@.take(len as int));
    buf.consume(len);
    Ok(bytes)
}

/// Bytes with room in front, after values from the last one down to place `i`
/// were put in front, and what was wrong, if anything.
pub open spec fn fronted(bytes: Seq<u8>, front: int, vs: Seq<Val>, i: int) -> (
    Seq<u8>,
    int,
    Option<Seq<char>>,
)
    decreases vs.len(),
{
    if i < 0 || vs.len() <= i {
        (bytes, front, None)
    } else {
        match vs.last() {
            Val::Str(b, _) => if b.len() <= front {
                fronted(b + bytes, front - b.len(), vs.drop_last(), i)
            } else {
                (bytes, front, Some("no more front space"@))
            },
            _ => (
                bytes,
                front,
                Some("bad argument #"@ + decimal(vs.len() as int) + " (string expected)"@),
            ),
        }
    }
}

/// Puts the string arguments in front of a buffer, so that they stand there in
/// their order. What was put there before an error stays.
pub fn write_front(buf: &mut Buffer, lua: &LuaStack) -> (r: Result<(), String>)
    requires
        lua.wf(),
    ensures
        ({
            let (bytes, front, wrong) = fronted(
                old(buf).bytes@,
                old(buf).front as int,
                lua@,
                1,
            );
            &&& final(buf).bytes@ == bytes
            &&& final(buf).front == front
            &&& match wrong {
                None => r is Ok,
                Some(e) => r matches Err(m) && m@ == e,
            }
        }),
{
    let mut i: usize = lua.slots.len();
    let ghost want = fronted(buf.bytes@, buf.front as int, lua@, 1);
    assert(lua@.take(i as int) =~= lua@);
    while i > 1
        invariant
            i <= lua@.len(),
            want == fronted(old(buf).bytes@, old(buf).front as int, lua@, 1),
            want == fronted(buf.bytes@, buf.front as int, lua@.take(i as int), 1),
        decreases i,
    {
        let ghost vs = lua@.take(i as int);
        assert(vs.last() == lua.slots@[i - 1]@);
        assert(vs.drop_last() =~= lua@.take(i - 1));
        match &lua.slots[i - 1] {
            LuaValue::String(s) => {
                if !buf.write_front(s.bytes.as_slice()) {
                    return Err("no more front space".to_owned());
                }
            },
            _ => {
                let mut m = "bad argument #".to_owned();
                push_u64(&mut m, i as u64);
                m.append(" (string expected)");
                return Err(m);
            },
        }
        i = i - 1;
    }
    Ok(())
}

/// Bytes after values were appended, and what was wrong, if anything.
pub open spec fn written(bytes: Seq<u8>, vs: Seq<Val>) -> (Seq<u8>, Option<Seq<char>>)
    decreases vs.len(),
{
    if vs.len() == 0 {
        (bytes, None)
    } else {
        match plain_bytes(vs[0]) {
            Some(b) => written(bytes + b, vs.skip(1)),
            None => (bytes, Some("unsupport type :"@ + kind_name(kind_of(vs[0])))),
        }
    }
}

/// Appends the arguments to a buffer. What was appended before an error stays.
pub fn write(buf: &mut Buffer, lua: &LuaStack) -> (r: Result<(), String>)
    requires
        lua.wf(),
        lua@.len() >= 1,
    ensures
        ({
            let (bytes, wrong) = written(old(buf).bytes@, lua@.skip(1));
            &&& final(buf).bytes@ == bytes
            &&& final(buf).front == old(buf).front
            &&& match wrong {
                None => r is Ok,
                Some(e) => r matches Err(m) && m@ == e,
            }
        }),
{
    let mut i: usize = 1;
    let ghost want = written(buf.bytes@, lua@.skip(1));
    while i < lua.slots.len()
        invariant
            1 <= i <= lua@.len(),
            buf.front == old(buf).front,
            want == written(old(buf).bytes@, lua@.skip(1)),
            want == written(buf.bytes@, lua@.skip(i as int)),
        decreases lua@.len() - i,
    {
        let ghost rest = lua@.skip(i as int);
        assert(rest[0] == lua.slots@[i as int]@);
        assert(rest.skip(1) =~= lua@.skip(i + 1));
        if !write_plain(buf, &lua.slots[i]) {
            return Err(unsupported("unsupport type :", &lua.slots[i]));
        }
        i = i + 1;
    }
    assert(lua@.skip(i as int) =~= Seq::empty());
    Ok(())
}

/// A number that was laid down in `k` bytes is read back from them, in either
/// byte order.
pub proof fn law_numbers_read_back(n: nat, k: nat)
    requires
        n < pow256(k),
    ensures
        number_of(le(n, k), true) == n,
        number_of(le(n, k).reverse(), false) == n,
{
    lemma_le_value_le(n, k);
    assert(le(n, k).reverse().reverse() =~= le(n, k));
}

/// Byte strings one after another.
pub open spec fn flat(strs: Seq<Seq<u8>>) -> Seq<u8>
    decreases strs.len(),
{
    if strs.len() == 0 {
        Seq::empty()
    } else {
        flat(strs.drop_last()) + strs.last()
    }
}

/// Byte strings as arguments behind a buffer.
pub open spec fn behind(handle: Val, strs: Seq<Seq<u8>>) -> Seq<Val> {
    seq![handle] + strs.map_values(|b: Seq<u8>| Val::Str(b, None))
}

/// Strings that were put in front of a buffer are what is read from it first, in
/// their order, and what was in the buffer follows. They fit exactly where the
/// room in front holds them all.
pub proof fn law_front_is_read_first(bytes: Seq<u8>, front: int, handle: Val, strs: Seq<Seq<u8>>)
    requires
        flat(strs).len() <= front,
    ensures
        fronted(bytes, front, behind(handle, strs), 1) == (
            flat(strs) + bytes,
            front - flat(strs).len(),
            None::<Seq<char>>,
        ),
        (flat(strs) + bytes).take(flat(strs).len() as int) == flat(strs),
        (flat(strs) + bytes).skip(flat(strs).len() as int) == bytes,
    decreases strs.len(),
{
    let vs = behind(handle, strs);
    if strs.len() == 0 {
        assert(flat(strs) + bytes =~= bytes);
    } else {
        let b = strs.last();
        let less = strs.drop_last();
        assert(vs.last() == Val::Str(b, None));
        assert(vs.drop_last() =~= behind(handle, less));
        law_front_is_read_first(b + bytes, front - b.len(), handle, less);
        assert(flat(less) + (b + bytes) =~= flat(strs) + bytes);
    }
    assert((flat(strs) + bytes).take(flat(strs).len() as int) =~= flat(strs));
    assert((flat(strs) + bytes).skip(flat(strs).len() as int) =~= bytes);
}

} // verus!
