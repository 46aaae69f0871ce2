//! The bytes that values are packed into.
use vstd::prelude::*;
use vstd::string::*;

use crate::pack::{
    appended, failure_text, le, packed, packed_entries, packed_integer, packed_items, Unwritten,
};
use crate::seri_laws::lemma_le_value_le;
use crate::unpack::{
    body_at, built_as, bytes_at, decode_error_text, integer_at, lemma_pow256, number_at, pow256,
    read_as, table_at, value_at, values_at, DecodeError, ReadBlock, Stop,
};
use crate::text::{decimal, lossy_text};
use crate::value::{kind_name, kind_of, Failure, Tab, Val, Walk};

verus! {

/// The bytes of an integer: zero alone, or a byte for the width and then as few of
/// one, two, four or eight bytes as hold it, the lowest first; a negative one has
/// four or eight, in two's complement.
pub proof fn law_integers_pack_shortest(i: i64, depth: int, room: int)
    requires
        depth <= 32,
    ensures
        packed(Val::Int(i), depth, room) == Ok::<Seq<u8>, Unwritten>(
            if i == 0 {
                seq![2u8]
            } else if 0 < i < 0x100 {
                seq![10u8] + le(i as nat, 1)
            } else if 0 < i < 0x1_0000 {
                seq![18u8] + le(i as nat, 2)
            } else if 0 < i < 0x8000_0000 {
                seq![34u8] + le(i as nat, 4)
            } else if -0x8000_0000 <= i < 0 {
                seq![34u8] + le((i + 0x1_0000_0000) as nat, 4)
            } else if i < 0 {
                seq![50u8] + le((i + 0x1_0000_0000_0000_0000) as nat, 8)
            } else {
                seq![50u8] + le(i as nat, 8)
            },
        ),
{
}

/// The bytes of the other plain values: nil and the switches are one byte; a float
/// and an address are one byte and then their eight, the lowest first. What is
/// neither plain nor a table is refused by its kind, and so is a NaN.
pub proof fn law_plain_values_pack_into_few_bytes(v: Val, depth: int, room: int)
    requires
        depth <= 32,
    ensures
        match v {
            Val::Nil => packed(v, depth, room) == Ok::<Seq<u8>, Unwritten>(seq![0u8]),
            Val::Bool(false) => packed(v, depth, room) == Ok::<Seq<u8>, Unwritten>(seq![1u8]),
            Val::Bool(true) => packed(v, depth, room) == Ok::<Seq<u8>, Unwritten>(seq![9u8]),
            Val::Light(p) => packed(v, depth, room) == Ok::<Seq<u8>, Unwritten>(
                seq![3u8] + le(p as nat, 8),
            ),
            Val::Num(bits, _) => if bits as int % 0x8000_0000_0000_0000 > 0x7ff0_0000_0000_0000 {
                packed(v, depth, room) matches Err(e) && e.written.len() == 0 && e.message
                    == "serialize can't pack 'nan' number value"@
            } else {
                packed(v, depth, room) == Ok::<Seq<u8>, Unwritten>(
                    seq![66u8] + le(bits as nat, 8),
                )
            },
            Val::Int(_) => true,
            Val::Str(_, _) => true,
            Val::Table(_) => true,
            _ => packed(v, depth, room) matches Err(e) && e.written.len() == 0 && e.message
                == "Unsupport type `"@ + kind_name(kind_of(v)) + "` to serialize"@,
        },
{
}

/// The bytes of a string: a short one has its length in the first byte, a longer
/// one in the two or four bytes behind it; then come its own.
pub proof fn law_strings_pack_behind_their_length(
    b: Seq<u8>,
    coerced: Option<i64>,
    depth: int,
    room: int,
)
    requires
        depth <= 32,
        b.len() < 0x1_0000_0000,
    ensures
        packed(Val::Str(b, coerced), depth, room) == Ok::<Seq<u8>, Unwritten>(
            if b.len() < 32 {
                seq![(4 + 8 * b.len()) as u8] + b
            } else if b.len() < 0x1_0000 {
                seq![21u8] + le(b.len(), 2) + b
            } else {
                seq![37u8] + le(b.len(), 4) + b
            },
        ),
{
}

/// Elements are packed one behind the other, up to the first that is refused.
pub proof fn law_elements_pack_in_turn(a: Seq<Val>, b: Seq<Val>, depth: int, room: int)
    ensures
        packed_items(a + b, depth, room) == match packed_items(a, depth, room) {
            Err(e) => Err::<Seq<u8>, Unwritten>(e),
            Ok(x) => match packed_items(b, depth, room) {
                Ok(y) => Ok(x + y),
                Err(e) => Err(Unwritten { written: x + e.written, message: e.message }),
            },
        },
    decreases a.len(),
{
    if a.len() == 0 {
        assert(a + b =~= b);
        match packed_items(b, depth, room) {
            Ok(y) => assert(Seq::<u8>::empty() + y =~= y),
            Err(e) => assert(Seq::<u8>::empty() + e.written =~= e.written),
        }
    } else {
        law_elements_pack_in_turn(a.skip(1), b, depth, room);
        assert((a + b).skip(1) =~= a.skip(1) + b);
        assert((a + b)[0] == a[0]);
        if let Ok(v) = packed(a[0], depth, room) {
            if let Ok(x) = packed_items(a.skip(1), depth, room) {
                match packed_items(b, depth, room) {
                    Ok(y) => assert(v + (x + y) =~= (v + x) + y),
                    Err(e) => assert(v + (x + e.written) =~= (v + x) + e.written),
                }
            }
        }
    }
}

/// An entry is packed as its key and then its value; an element of the sequence
/// part, which has its place already, not again.
pub proof fn law_entries_pack_as_pairs(
    k: Val,
    v: Val,
    rest: Seq<(Val, Val)>,
    n: nat,
    depth: int,
    room: int,
    x: Seq<u8>,
    y: Seq<u8>,
    z: Seq<u8>,
)
    requires
        packed(k, depth, room) == Ok::<Seq<u8>, Unwritten>(x),
        packed(v, depth, room) == Ok::<Seq<u8>, Unwritten>(y),
        packed_entries(rest, n, depth, room) == Ok::<Seq<u8>, Unwritten>(z),
    ensures
        packed_entries(seq![(k, v)] + rest, n, depth, room) == Ok::<Seq<u8>, Unwritten>(
            if k matches Val::Int(i) && 1 <= i <= n {
                z
            } else {
                x + y + z
            },
        ),
{
    let all = seq![(k, v)] + rest;
    assert(all[0] == (k, v));
    assert(all.skip(1) =~= rest);
    assert(x + (y + z) =~= x + y + z);
}

/// The bytes of a table: the number of elements in its first byte, or behind it
/// where there are many, the elements, the pairs, and a nil. It asks for 20 free
/// slots, and tables nest at most 32 deep.
pub proof fn law_tables_pack_as_elements_and_pairs(
    t: Tab,
    depth: int,
    room: int,
    x: Seq<u8>,
    y: Seq<u8>,
)
    requires
        t.pairs is None,
        t.array.len() < 0x8000_0000_0000_0000,
        packed_items(t.array, depth + 1, room - 1) == Ok::<Seq<u8>, Unwritten>(x),
        packed_entries(t.hash, t.array.len(), depth + 1, room - 2) == Ok::<Seq<u8>, Unwritten>(y),
    ensures
        depth > 32 ==> (packed(Val::Table(t), depth, room) matches Err(e) && e.written.len() == 0
            && e.message == "serialize can't pack too depth table"@),
        depth <= 32 && room < 20 ==> (packed(Val::Table(t), depth, room) matches Err(e)
            && e.written.len() == 0 && e.message == "stack overflow (serialize)"@),
        depth <= 32 && room >= 20 ==> packed(Val::Table(t), depth, room) == Ok::<
            Seq<u8>,
            Unwritten,
        >(
            if t.array.len() < 31 {
                seq![(6 + 8 * t.array.len()) as u8] + x + y + seq![0u8]
            } else {
                seq![254u8] + packed_integer(t.array.len() as int) + x + y + seq![0u8]
            },
        ),
{
    let end = seq![0u8];
    if t.array.len() < 31 {
        let h = seq![(6 + 8 * t.array.len()) as u8];
        assert(h + (x + (y + end)) =~= h + x + y + end);
    } else {
        let h = seq![254u8] + packed_integer(t.array.len() as int);
        assert(h + (x + (y + end)) =~= h + x + y + end);
    }
}

/// Whatever nests deeper than 32 tables is refused, tables or not.
pub proof fn law_nesting_is_bounded(v: Val, depth: int, room: int)
    ensures
        depth > 32 ==> (packed(v, depth, room) matches Err(e) && e.written.len() == 0 && e.message
            == "serialize can't pack too depth table"@),
{
}

/// A number of `k` bytes is read where they are all there, the lowest first, and
/// reading stops behind them; else it is refused on the spot, with word of how many
/// bytes are left.
pub proof fn law_numbers_are_read_where_they_are(
    before: Seq<u8>,
    n: nat,
    k: nat,
    after: Seq<u8>,
    line: u32,
    buf: Seq<u8>,
    pos: int,
)
    requires
        n < pow256(k),
        0 <= pos <= buf.len() <= usize::MAX,
    ensures
        number_at(before + le(n, k) + after, before.len() as int, k, line) == Ok::<
            (nat, int),
            Stop,
        >((n, before.len() as int + k)),
        buf.len() - pos < k ==> (number_at(buf, pos, k, line) matches Err(s) && s.pos == pos
            && s.left.len() == 0 && s.error == (DecodeError::InvalidStream {
            remaining: (buf.len() - pos) as usize,
            line,
        })),
        buf.len() - pos >= k ==> number_at(buf, pos, k, line) is Ok,
{
    lemma_le_value_le(n, k);
    let all = before + le(n, k) + after;
    assert(all.subrange(before.len() as int, before.len() as int + k) =~= le(n, k));
}

/// An integer is read in any width that it may have been written with, not only
/// the shortest: one and two bytes without a sign, four and eight with one.
pub proof fn law_integers_are_read_in_any_width(
    before: Seq<u8>,
    v: i64,
    after: Seq<u8>,
    cookie: u8,
)
    ensures
        ({
            let pos = before.len() as int;
            &&& integer_at(before + after, pos, 0) == Ok::<(i64, int), Stop>((0, pos))
            &&& 0 <= v < 0x100 ==> integer_at(before + le(v as nat, 1) + after, pos, 1) == Ok::<
                (i64, int),
                Stop,
            >((v, pos + 1))
            &&& 0 <= v < 0x1_0000 ==> integer_at(before + le(v as nat, 2) + after, pos, 2) == Ok::<
                (i64, int),
                Stop,
            >((v, pos + 2))
            &&& -0x8000_0000 <= v < 0x8000_0000 ==> integer_at(
                before + le((v as int % 0x1_0000_0000) as nat, 4) + after,
                pos,
                4,
            ) == Ok::<(i64, int), Stop>((v, pos + 4))
            &&& integer_at(
                before + le((v as int % 0x1_0000_0000_0000_0000) as nat, 8) + after,
                pos,
                6,
            ) == Ok::<(i64, int), Stop>((v, pos + 8))
            &&& cookie != 0 && cookie != 1 && cookie != 2 && cookie != 4 && cookie != 6
                ==> integer_at(before + after, pos, cookie) is Err
        }),
{
    lemma_pow256();
    let e = Seq::<u8>::empty();
    if 0 <= v < 0x100 {
        law_numbers_are_read_where_they_are(before, v as nat, 1, after, 432, e, 0);
    }
    if 0 <= v < 0x1_0000 {
        law_numbers_are_read_where_they_are(before, v as nat, 2, after, 451, e, 0);
    }
    if -0x8000_0000 <= v < 0x8000_0000 {
        law_numbers_are_read_where_they_are(
            before,
            (v as int % 0x1_0000_0000) as nat,
            4,
            after,
            471,
            e,
            0,
        );
    }
    law_numbers_are_read_where_they_are(
        before,
        (v as int % 0x1_0000_0000_0000_0000) as nat,
        8,
        after,
        481,
        e,
        0,
    );
}

/// A string is read behind its length, in any width that the length may have been
/// written with.
pub proof fn law_strings_are_read_in_any_width(
    before: Seq<u8>,
    b: Seq<u8>,
    after: Seq<u8>,
    depth: int,
    room: int,
)
    ensures
        ({
            let pos = before.len() as int;
            &&& b.len() < 32 ==> body_at(before + b + after, pos, 4, b.len() as u8, depth, room)
                == Ok::<(Val, int), Stop>((Val::Str(b, None), pos + b.len()))
            &&& b.len() < 0x1_0000 ==> body_at(
                before + le(b.len(), 2) + (b + after),
                pos,
                5,
                2,
                depth,
                room,
            ) == Ok::<(Val, int), Stop>((Val::Str(b, None), pos + 2 + b.len()))
            &&& b.len() < 0x1_0000_0000 ==> body_at(
                before + le(b.len(), 4) + (b + after),
                pos,
                5,
                4,
                depth,
                room,
            ) == Ok::<(Val, int), Stop>((Val::Str(b, None), pos + 4 + b.len()))
        }),
{
    lemma_pow256();
    let pos = before.len() as int;
    let e = Seq::<u8>::empty();
    let short = before + b + after;
    assert(short.subrange(pos, pos + b.len()) =~= b);
    if b.len() < 0x1_0000 {
        law_numbers_are_read_where_they_are(before, b.len(), 2, b + after, 451, e, 0);
        lemma_le_value_le(b.len(), 2);
        let all = before + le(b.len(), 2) + (b + after);
        assert(all.subrange(pos + 2, pos + 2 + b.len()) =~= b);
    }
    if b.len() < 0x1_0000_0000 {
        law_numbers_are_read_where_they_are(before, b.len(), 4, b + after, 461, e, 0);
        lemma_le_value_le(b.len(), 4);
        let all = before + le(b.len(), 4) + (b + after);
        assert(all.subrange(pos + 4, pos + 4 + b.len()) =~= b);
    }
}

/// What single bytes and the words behind them stand for: nil, the switches, a
/// float and an address by their eight bytes, the lowest first.
pub proof fn law_plain_values_are_read_from_few_bytes(
    before: Seq<u8>,
    n: u64,
    after: Seq<u8>,
    cookie: u8,
    depth: int,
    room: int,
)
    ensures
        ({
            let pos = before.len() as int;
            let words = before + le(n as nat, 8) + after;
            &&& body_at(before + after, pos, 0, cookie, depth, room) == Ok::<(Val, int), Stop>(
                (Val::Nil, pos),
            )
            &&& body_at(before + after, pos, 1, cookie, depth, room) == Ok::<(Val, int), Stop>(
                (Val::Bool(cookie != 0), pos),
            )
            &&& body_at(words, pos, 2, 8, depth, room) == Ok::<(Val, int), Stop>(
                (Val::Num(n, Seq::empty()), pos + 8),
            )
            &&& body_at(words, pos, 3, cookie, depth, room) == Ok::<(Val, int), Stop>(
                (Val::Light(n), pos + 8),
            )
            &&& body_at(before + after, pos, 7, cookie, depth, room) is Err
        }),
{
    lemma_pow256();
    let e = Seq::<u8>::empty();
    law_numbers_are_read_where_they_are(before, n as nat, 8, after, 491, e, 0);
    law_numbers_are_read_where_they_are(before, n as nat, 8, after, 501, e, 0);
}

/// Tables are refused where they nest more than 32 deep, and where there are fewer
/// than 20 free slots for one.
pub proof fn law_deep_tables_are_refused(
    buf: Seq<u8>,
    pos: int,
    cookie: u8,
    depth: int,
    room: int,
)
    ensures
        depth > 32 ==> (table_at(buf, pos, cookie, depth, room) matches Err(s) && s.error
            == DecodeError::TooDeep && s.pos == pos && s.left.len() == 0),
        depth <= 32 && room < 20 && cookie < 31 ==> (table_at(buf, pos, cookie, depth, room)
            matches Err(s) && s.error == DecodeError::StackOverflow && s.pos == pos
            && s.left.len() == 0),
{
}

/// Values are read one behind the other to the end: what a stream gives is its
/// first value and then what the rest gives.
pub proof fn law_streams_are_read_in_turn(
    buf: Seq<u8>,
    pos: int,
    done: Seq<Val>,
    limit: int,
    v: Val,
    p: int,
)
    requires
        0 <= pos < p <= buf.len(),
        limit >= done.len() + 8,
        value_at(buf, pos, 0, limit - done.len()) == Ok::<(Val, int), Stop>((v, p)),
    ensures
        values_at(buf, pos, done, limit) == values_at(buf, p, done.push(v), limit),
        values_at(buf, buf.len() as int, done, limit) == Ok::<
            Seq<Val>,
            (DecodeError, Seq<Val>),
        >(done),
{
}

/// A table with a `__pairs` metafield is packed as what that yields, without
/// elements: the pairs in their order, up to the failure that cut the walk short.
pub proof fn law_walked_tables_pack_what_they_yield(
    t: Tab,
    w: Walk,
    depth: int,
    room: int,
    y: Seq<u8>,
)
    requires
        t.pairs == Some(w),
        depth <= 32,
        room >= 20,
        packed_entries(w.entries, 0, depth + 1, room - 4) == Ok::<Seq<u8>, Unwritten>(y),
    ensures
        w.failure is None ==> packed(Val::Table(t), depth, room) == Ok::<Seq<u8>, Unwritten>(
            seq![6u8] + y + seq![0u8],
        ),
        w.failure is Some ==> (packed(Val::Table(t), depth, room) matches Err(e) && e.written
            == seq![6u8] + y),
{
    assert(seq![6u8] + (y + seq![0u8]) =~= seq![6u8] + y + seq![0u8]);
}

/// A failed walk is reported by what failed and by the text of the error object,
/// where that is a string.
pub proof fn law_failed_walks_say_what_failed(b: Seq<u8>)
    ensures
        failure_text(Failure::Call(Some(b))) == "serialize __pairs error: "@ + lossy_text(b),
        failure_text(Failure::Iterator(Some(b))) == "serialize __pairs iterator error: "@
            + lossy_text(b),
        failure_text(Failure::Call(None)) == "serialize __pairs error: "@ + "unknown error"@,
        failure_text(Failure::Iterator(None)) == "serialize __pairs iterator error: "@
            + "unknown error"@,
{
}

/// Bytes that are not all there are refused, with word of how many are left.
pub proof fn law_missing_bytes_are_refused(
    buf: Seq<u8>,
    pos: int,
    n: nat,
    depth: int,
    room: int,
)
    requires
        0 <= pos <= buf.len() <= usize::MAX,
        buf.len() - pos < n,
    ensures
        bytes_at(buf, pos, n) matches Err(s) && s.pos == pos && s.left.len() == 0 && s.error == (
        DecodeError::InvalidStream { remaining: (buf.len() - pos) as usize, line: 510 }),
        n < 32 ==> body_at(buf, pos, 4, n as u8, depth, room) is Err,
{
}

/// What a decoding error says: where a stream is malformed, the bytes left there
/// and the number of the check; else what the machine would not take.
pub proof fn law_decoding_errors_say_what_is_wrong(remaining: usize, line: u32)
    ensures
        decode_error_text(DecodeError::InvalidStream { remaining, line })
            == "Invalid serialize stream "@ + decimal(remaining as int) + " (line:"@ + decimal(
            line as int,
        ) + ")"@,
        decode_error_text(DecodeError::TooDeep) == "serialize unpack: too deep"@,
        decode_error_text(DecodeError::StackOverflow) == "stack overflow"@,
        decode_error_text(DecodeError::NanKey) == "table index is NaN"@,
{
}

/// What packing onto a buffer does to it: it adds the bytes behind those that are
/// there, all of them where it succeeds, and those written until then where not.
pub proof fn law_packing_adds_behind(
    before: Seq<u8>,
    after: Seq<u8>,
    r: Result<(), String>,
    b: Seq<u8>,
    e: Unwritten,
)
    ensures
        appended(before, after, r, Ok(b)) <==> r is Ok && after == before + b,
        appended(before, after, r, Err(e)) <==> r is Err && r->Err_0@ == e.message && after
            == before + e.written,
{
}

/// What a read does to a block: it moves to where it ended and keeps the first
/// error there was; one that gives nothing is an error.
pub proof fn law_reads_move_on_or_fail(
    before: ReadBlock,
    after: ReadBlock,
    got: Option<u8>,
    v: u8,
    p: int,
    s: Stop,
)
    ensures
        read_as(before, after, got, Ok((v, p))) ==> got == Some(v) && after.pos == p && after.error
            == before.error && after.buf@ == before.buf@,
        read_as(before, after, got, Err(s)) ==> got is None && after.pos == s.pos && after.error
            is Some && after.buf@ == before.buf@,
        read_as(before, after, got, Err(s)) && before.error is Some ==> after.error
            == before.error,
        read_as(before, after, got, Err(s)) && before.error is None ==> after.error == Some(
            s.error,
        ),
{
}

/// What building a value from a block does to it, and what it gives: the value, or
/// what is left of it.
pub proof fn law_values_are_built_or_left(
    before: ReadBlock,
    after: ReadBlock,
    got: Result<Val, Seq<Val>>,
    v: Val,
    p: int,
    s: Stop,
)
    ensures
        built_as(before, after, got, Ok((v, p))) ==> got == Ok::<Val, Seq<Val>>(v) && after.pos == p
            && after.error == before.error && after.buf@ == before.buf@,
        built_as(before, after, got, Err(s)) ==> got == Err::<Val, Seq<Val>>(s.left) && after.pos
            == s.pos && after.error is Some && before.pos <= after.pos,
        built_as(before, after, got, Err(s)) && before.error is None ==> after.error == Some(
            s.error,
        ),
{
}

/// The numbers by which a check that refused a stream is reported: for numbers by
/// their widths, and for what no kind or cookie stands for.
pub proof fn law_refusals_are_numbered(buf: Seq<u8>, pos: int, cookie: u8, depth: int, room: int)
    requires
        0 <= pos == buf.len() <= usize::MAX,
    ensures
        ({
            let at = |line: u32| Stop {
                error: DecodeError::InvalidStream { remaining: 0, line },
                pos,
                left: Seq::<Val>::empty(),
            };
            &&& integer_at(buf, pos, 1) == Err::<(i64, int), Stop>(at(432))
            &&& integer_at(buf, pos, 2) == Err::<(i64, int), Stop>(at(451))
            &&& integer_at(buf, pos, 4) == Err::<(i64, int), Stop>(at(471))
            &&& integer_at(buf, pos, 6) == Err::<(i64, int), Stop>(at(481))
            &&& integer_at(buf, pos, 3) == Err::<(i64, int), Stop>(at(530))
            &&& body_at(buf, pos, 2, 8, depth, room) == Err::<(Val, int), Stop>(at(491))
            &&& body_at(buf, pos, 3, cookie, depth, room) == Err::<(Val, int), Stop>(at(501))
            &&& body_at(buf, pos, 4, 1, depth, room) == Err::<(Val, int), Stop>(at(510))
            &&& body_at(buf, pos, 5, 2, depth, room) == Err::<(Val, int), Stop>(at(451))
            &&& body_at(buf, pos, 5, 4, depth, room) == Err::<(Val, int), Stop>(at(461))
            &&& body_at(buf, pos, 5, 3, depth, room) == Err::<(Val, int), Stop>(at(578))
            &&& body_at(buf, pos, 7, cookie, depth, room) == Err::<(Val, int), Stop>(at(588))
            &&& value_at(buf, pos, depth, room) == Err::<(Val, int), Stop>(at(432))
        }),
{
}

} // verus!
