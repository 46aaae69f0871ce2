//! What reading gives back of what was packed.
use vstd::prelude::*;

use crate::number::{signed64, unsigned64};
use crate::pack::{
    in_sequence, le, le_value, packed, packed_entries, packed_head, packed_integer,
    packed_items, packed_table, packed_walk, tag, unsigned32, MAX_DEPTH, MIN_STACK,
    TYPE_LONG_STRING, TYPE_NIL, TYPE_NUMBER, TYPE_NUMBER_BYTE, TYPE_NUMBER_DWORD,
    TYPE_NUMBER_QWORD, TYPE_NUMBER_REAL, TYPE_NUMBER_WORD, TYPE_SHORT_STRING, TYPE_TABLE,
    TYPE_USERDATA,
};
use crate::unpack::{
    integer_at, items_at, lemma_pow256, number_at, pairs_at, pow256, size_at, table_at,
    value_at, Stop,
};
use crate::value::{find, is_key, lemma_find, raw_equal, stored_key, trimmed, Tab, Val, Walk};

verus! {

/// The bytes `b` stand in `buf` at `pos`.
pub open spec fn holds_at(buf: Seq<u8>, pos: int, b: Seq<u8>) -> bool {
    &&& 0 <= pos
    &&& pos + b.len() <= buf.len()
    &&& buf.subrange(pos, pos + b.len()) == b
}

pub proof fn lemma_split(buf: Seq<u8>, pos: int, a: Seq<u8>, b: Seq<u8>)
    requires
        holds_at(buf, pos, a + b),
    ensures
        holds_at(buf, pos, a),
        holds_at(buf, pos + a.len(), b),
{
    let whole = buf.subrange(pos, pos + (a + b).len());
    assert(buf.subrange(pos, pos + a.len()) =~= a) by {
        assert forall|i: int| 0 <= i < a.len() implies buf[pos + i] == a[i] by {
            assert(whole[i] == (a + b)[i]);
        }
    }
    assert(buf.subrange(pos + a.len(), pos + a.len() + b.len()) =~= b) by {
        assert forall|i: int| 0 <= i < b.len() implies buf[pos + a.len() + i] == b[i] by {
            assert(whole[a.len() + i] == (a + b)[a.len() + i]);
        }
    }
}

proof fn lemma_le_len(n: nat, k: nat)
    ensures
        le(n, k).len() == k,
    decreases k,
{
    if k > 0 {
        lemma_le_len(n / 256, (k - 1) as nat);
    }
}

/// A number that `k` bytes can hold is read back from them.
pub proof fn lemma_le_value_le(n: nat, k: nat)
    requires
        n < pow256(k),
    ensures
        le(n, k).len() == k,
        le_value(le(n, k)) == n,
    decreases k,
{
    lemma_le_len(n, k);
    if k > 0 {
        lemma_le_value_le(n / 256, (k - 1) as nat);
        assert(le(n, k).skip(1) =~= le(n / 256, (k - 1) as nat));
    }
}

proof fn lemma_number_back(buf: Seq<u8>, pos: int, n: nat, k: nat, line: u32)
    requires
        n < pow256(k),
        holds_at(buf, pos, le(n, k)),
    ensures
        number_at(buf, pos, k, line) == Ok::<_, Stop>((n, pos + k)),
        le(n, k).len() == k,
{
    lemma_le_value_le(n, k);
}

/// The first byte of bytes that stand at a place.
proof fn lemma_first(buf: Seq<u8>, pos: int, b: Seq<u8>)
    requires
        holds_at(buf, pos, b),
        b.len() > 0,
    ensures
        buf[pos] == b[0],
{
    assert(buf.subrange(pos, pos + b.len())[0] == b[0]);
}

/// Every integer is read back from its bytes.
proof fn lemma_integer_back(buf: Seq<u8>, pos: int, v: i64)
    requires
        holds_at(buf, pos, packed_integer(v as int)),
    ensures
        pos < buf.len(),
        buf[pos] % 8 == TYPE_NUMBER,
        buf[pos] / 8 != TYPE_NUMBER_REAL,
        integer_at(buf, pos + 1, buf[pos] / 8) == Ok::<_, Stop>(
            (v, pos + packed_integer(v as int).len()),
        ),
{
    lemma_pow256();
    let b = packed_integer(v as int);
    lemma_first(buf, pos, b);
    if v == 0 {
    } else {
        let (cookie, n, k): (u8, nat, nat) = if !(i32::MIN <= v <= i32::MAX) {
            (TYPE_NUMBER_QWORD, unsigned64(v as int), 8)
        } else if v < 0 {
            (TYPE_NUMBER_DWORD, unsigned32(v as int), 4)
        } else if v < 0x100 {
            (TYPE_NUMBER_BYTE, v as nat, 1)
        } else if v < 0x10000 {
            (TYPE_NUMBER_WORD, v as nat, 2)
        } else {
            (TYPE_NUMBER_DWORD, v as nat, 4)
        };
        assert(b == seq![tag(TYPE_NUMBER, cookie as int)] + le(n, k));
        lemma_split(buf, pos, seq![tag(TYPE_NUMBER, cookie as int)], le(n, k));
        lemma_number_back(buf, pos + 1, n, k, 0);
        assert(buf[pos] == TYPE_NUMBER + 8 * cookie);
        assert(buf[pos] / 8 == cookie);
    }
}

/// Reading an integer undoes writing it: the first byte says that an integer
/// follows and of what size, and from the rest comes the integer, with nothing
/// left over.
pub proof fn law_integers_read_back(v: i64)
    ensures
        ({
            let b = packed_integer(v as int);
            &&& b.len() > 0
            &&& b[0] % 8 == TYPE_NUMBER
            &&& b[0] / 8 != TYPE_NUMBER_REAL
            &&& integer_at(b, 1, b[0] / 8) == Ok::<_, Stop>((v, b.len() as int))
        }),
{
    let b = packed_integer(v as int);
    assert(b.subrange(0, b.len() as int) =~= b);
    lemma_integer_back(b, 0, v);
}

/// The text-free, coercion-free form in which a value arrives; a table is built
/// up again entry by entry.
pub open spec fn arrived(v: Val) -> Val
    decreases v,
{
    match v {
        Val::Num(bits, _) => Val::Num(bits, Seq::empty()),
        Val::Str(b, _) => Val::Str(b, None),
        Val::Table(t) => Val::Table(arrived_table(t)),
        _ => v,
    }
}

/// The form in which a table arrives.
pub open spec fn arrived_table(t: Tab) -> Tab
    decreases t,
{
    match t.pairs {
        Some(w) => built(Tab::empty(), w.entries, 0).settled(),
        None => built(
            Tab { array: arrived_items(Seq::empty(), t.array), ..Tab::empty() },
            t.hash,
            t.array.len(),
        ).settled(),
    }
}

/// The forms in which sequence elements arrive, after those in `done`.
pub open spec fn arrived_items(done: Seq<Val>, items: Seq<Val>) -> Seq<Val>
    decreases items,
{
    if items.len() == 0 {
        done
    } else {
        arrived_items(done.push(arrived(items[0])), items.skip(1))
    }
}

/// A table after the entries outside its `n` sequence elements were set.
pub open spec fn built(t: Tab, es: Seq<(Val, Val)>, n: nat) -> Tab
    decreases es,
{
    if es.len() == 0 {
        t
    } else if in_sequence(es[0].0, n) {
        built(t, es.skip(1), n)
    } else {
        built(t.set(arrived(es[0].0), arrived(es[0].1)), es.skip(1), n)
    }
}

/// Values that lengths on the wire can describe: no string of four gigabytes,
/// and no nil as a key, which no table has.
pub open spec fn wireable(v: Val) -> bool
    decreases v,
{
    match v {
        Val::Str(b, _) => b.len() < 0x1_0000_0000,
        Val::Table(t) => wireable_table(t),
        _ => true,
    }
}

pub open spec fn wireable_table(t: Tab) -> bool
    decreases t,
{
    match t.pairs {
        Some(w) => wireable_entries(w.entries),
        None => {
            &&& t.array.len() < 0x1_0000_0000_0000_0000
            &&& wireable_items(t.array)
            &&& wireable_entries(t.hash)
        },
    }
}

pub open spec fn wireable_items(items: Seq<Val>) -> bool
    decreases items,
{
    items.len() > 0 ==> wireable(items[0]) && wireable_items(items.skip(1))
}

pub open spec fn wireable_entries(es: Seq<(Val, Val)>) -> bool
    decreases es,
{
    es.len() > 0 ==> {
        &&& !(es[0].0 is Nil)
        &&& wireable(es[0].0)
        &&& wireable(es[0].1)
        &&& wireable_entries(es.skip(1))
    }
}

/// The reader has stack enough: as much as the writer had, or enough for any
/// nesting.
pub open spec fn ample(reader: int, writer: int, depth: int) -> bool {
    reader >= writer || reader >= MIN_STACK + 2 * (MAX_DEPTH + 1 - depth)
}

/// A value that was packed is read back: wherever its bytes stand, reading there
/// gives its arrived form and stops right behind them.
pub proof fn law_value_round_trip(
    v: Val,
    depth: int,
    writer: int,
    reader: int,
    buf: Seq<u8>,
    pos: int,
)
    requires
        wireable(v),
        packed(v, depth, writer) is Ok,
        ample(reader, writer, depth),
        holds_at(buf, pos, packed(v, depth, writer)->Ok_0),
    ensures
        value_at(buf, pos, depth, reader) == Ok::<_, Stop>(
            (arrived(v), pos + packed(v, depth, writer)->Ok_0.len()),
        ),
        packed(v, depth, writer)->Ok_0.len() > 0,
    decreases v, 0nat,
{
    lemma_pow256();
    let b = packed(v, depth, writer)->Ok_0;
    match v {
        Val::Nil => {
            lemma_first(buf, pos, b);
        },
        Val::Bool(x) => {
            lemma_first(buf, pos, b);
        },
        Val::Num(bits, _) => {
            let head = seq![tag(TYPE_NUMBER, TYPE_NUMBER_REAL as int)];
            lemma_first(buf, pos, b);
            lemma_split(buf, pos, head, le(bits as nat, 8));
            lemma_number_back(buf, pos + 1, bits as nat, 8, crate::unpack::LINE_REAL);
        },
        Val::Int(i) => {
            lemma_integer_back(buf, pos, i);
        },
        Val::Light(p) => {
            lemma_first(buf, pos, b);
            lemma_split(buf, pos, seq![TYPE_USERDATA], le(p as nat, 8));
            lemma_number_back(buf, pos + 1, p as nat, 8, crate::unpack::LINE_POINTER);
        },
        Val::Str(s, _) => {
            lemma_first(buf, pos, b);
            if s.len() < 32 {
                lemma_split(buf, pos, seq![tag(TYPE_SHORT_STRING, s.len() as int)], s);
            } else if s.len() < 0x10000 {
                let head = seq![tag(TYPE_LONG_STRING, 2)];
                lemma_split(buf, pos, head + le(s.len(), 2), s);
                lemma_split(buf, pos, head, le(s.len(), 2));
                lemma_number_back(buf, pos + 1, s.len(), 2, crate::unpack::LINE_U16);
            } else {
                let head = seq![tag(TYPE_LONG_STRING, 4)];
                assert(s.len() % 0x1_0000_0000 == s.len());
                lemma_split(buf, pos, head + le(s.len(), 4), s);
                lemma_split(buf, pos, head, le(s.len(), 4));
                lemma_number_back(buf, pos + 1, s.len(), 4, crate::unpack::LINE_U32);
            }
        },
        Val::Table(t) => {
            lemma_table_back(t, depth, writer, reader, buf, pos);
            lemma_first(buf, pos, b);
        },
        _ => {},
    }
}

/// The head of a table says how many sequence elements follow.
proof fn lemma_head_back(buf: Seq<u8>, pos: int, n: nat)
    requires
        n < 0x1_0000_0000_0000_0000,
        holds_at(buf, pos, packed_head(n)),
    ensures
        pos < buf.len(),
        buf[pos] % 8 == TYPE_TABLE,
        size_at(buf, pos + 1, buf[pos] / 8) == Ok::<_, Stop>(
            (n, pos + packed_head(n).len()),
        ),
        packed_head(n).len() > 0,
{
    lemma_first(buf, pos, packed_head(n));
    if n >= 31 {
        let k = signed64(n);
        lemma_split(buf, pos, seq![tag(TYPE_TABLE, 31)], packed_integer(k));
        lemma_integer_back(buf, pos + 1, k as i64);
        assert(buf[pos] == 254);
    } else {
        assert(buf[pos] == 6 + 8 * n);
    }
}

proof fn lemma_table_back(t: Tab, depth: int, writer: int, reader: int, buf: Seq<u8>, pos: int)
    requires
        depth <= MAX_DEPTH,
        wireable_table(t),
        packed_table(t, depth + 1, writer) is Ok,
        ample(reader, writer, depth),
        holds_at(buf, pos, packed_table(t, depth + 1, writer)->Ok_0),
    ensures
        packed_table(t, depth + 1, writer)->Ok_0.len() > 0,
        buf[pos] % 8 == TYPE_TABLE,
        table_at(buf, pos + 1, buf[pos] / 8, depth, reader) == Ok::<
            _,
            Stop,
        >((arrived_table(t), pos + packed_table(t, depth + 1, writer)->Ok_0.len())),
    decreases t, 1nat,
{
    match t.pairs {
        Some(w) => {
            lemma_walk_back(t, w, depth, writer, reader, buf, pos);
        },
        None => {
            lemma_plain_back(t, depth, writer, reader, buf, pos);
        },
    }
}

/// What [`lemma_table_back`] says of a table with a `__pairs` metafield.
#[verifier::rlimit(30)]
proof fn lemma_walk_back(
    t: Tab,
    w: Walk,
    depth: int,
    writer: int,
    reader: int,
    buf: Seq<u8>,
    pos: int,
)
    requires
        t.pairs == Some(w),
        depth <= MAX_DEPTH,
        wireable_table(t),
        packed_table(t, depth + 1, writer) is Ok,
        ample(reader, writer, depth),
        holds_at(buf, pos, packed_table(t, depth + 1, writer)->Ok_0),
    ensures
        packed_table(t, depth + 1, writer)->Ok_0.len() > 0,
        buf[pos] % 8 == TYPE_TABLE,
        table_at(buf, pos + 1, buf[pos] / 8, depth, reader) == Ok::<
            _,
            Stop,
        >((arrived_table(t), pos + packed_table(t, depth + 1, writer)->Ok_0.len())),
    decreases w, 1nat,
{
    let b = packed_table(t, depth + 1, writer)->Ok_0;
    let e = packed_walk(w, depth + 1, writer - 4)->Ok_0;
    let head = packed_head(0);
    assert(packed_entries(w.entries, 0, depth + 1, writer - 4) is Ok);
    assert(b == head + (e + seq![TYPE_NIL]));
    lemma_split(buf, pos, head, e + seq![TYPE_NIL]);
    lemma_head_back(buf, pos, 0);
    let items: Seq<Val> = Seq::empty();
    assert(items_at(buf, pos + 1, 0, items, depth + 1, reader - 1) == Ok::<
        _,
        Stop,
    >((items, pos + 1)));
    lemma_entries_back(
        Tab::empty(),
        w.entries,
        0,
        depth + 1,
        writer - 4,
        reader - 1,
        buf,
        pos + 1,
    );
}

/// What [`lemma_table_back`] says of a table without a `__pairs` metafield.
#[verifier::rlimit(30)]
proof fn lemma_plain_back(t: Tab, depth: int, writer: int, reader: int, buf: Seq<u8>, pos: int)
    requires
        t.pairs is None,
        depth <= MAX_DEPTH,
        wireable_table(t),
        packed_table(t, depth + 1, writer) is Ok,
        ample(reader, writer, depth),
        holds_at(buf, pos, packed_table(t, depth + 1, writer)->Ok_0),
    ensures
        packed_table(t, depth + 1, writer)->Ok_0.len() > 0,
        buf[pos] % 8 == TYPE_TABLE,
        table_at(buf, pos + 1, buf[pos] / 8, depth, reader) == Ok::<
            _,
            Stop,
        >((arrived_table(t), pos + packed_table(t, depth + 1, writer)->Ok_0.len())),
    decreases t, 0nat,
{
    let b = packed_table(t, depth + 1, writer)->Ok_0;
    let n = t.array.len();
    let head = packed_head(n);
    let a = packed_items(t.array, depth + 1, writer - 1)->Ok_0;
    let h = packed_entries(t.hash, n, depth + 1, writer - 2)->Ok_0;
    assert(packed_items(t.array, depth + 1, writer - 1) is Ok);
    assert(packed_entries(t.hash, n, depth + 1, writer - 2) is Ok);
    assert(b == head + (a + (h + seq![TYPE_NIL])));
    lemma_split(buf, pos, head, a + (h + seq![TYPE_NIL]));
    lemma_head_back(buf, pos, n);
    let p = pos + head.len();
    lemma_split(buf, p, a, h + seq![TYPE_NIL]);
    lemma_items_back(Seq::empty(), t.array, depth + 1, writer - 1, reader - 1, buf, p);
    let start = Tab { array: arrived_items(Seq::empty(), t.array), ..Tab::empty() };
    lemma_entries_back(
        start,
        t.hash,
        n,
        depth + 1,
        writer - 2,
        reader - 1,
        buf,
        p + a.len(),
    );
    assert(pairs_at(buf, p + a.len(), start, depth + 1, reader - 1) == Ok::<_, Stop>(
        (arrived_table(t), p + a.len() + h.len() + 1),
    ));
    assert(b.len() == head.len() + a.len() + h.len() + 1);
}

proof fn lemma_items_back(
    done: Seq<Val>,
    items: Seq<Val>,
    depth: int,
    writer: int,
    reader: int,
    buf: Seq<u8>,
    pos: int,
)
    requires
        wireable_items(items),
        packed_items(items, depth, writer) is Ok,
        ample(reader, writer, depth),
        holds_at(buf, pos, packed_items(items, depth, writer)->Ok_0),
    ensures
        items_at(buf, pos, items.len(), done, depth, reader) == Ok::<
            _,
            Stop,
        >((arrived_items(done, items), pos + packed_items(items, depth, writer)->Ok_0.len())),
    decreases items, 0nat,
{
    if items.len() > 0 {
        let a = packed(items[0], depth, writer)->Ok_0;
        let rest = packed_items(items.skip(1), depth, writer)->Ok_0;
        lemma_split(buf, pos, a, rest);
        law_value_round_trip(items[0], depth, writer, reader, buf, pos);
        lemma_items_back(
            done.push(arrived(items[0])),
            items.skip(1),
            depth,
            writer,
            reader,
            buf,
            pos + a.len(),
        );
    }
}

/// A value that is no nil and not a NaN arrives as a key.
proof fn lemma_key_arrives(k: Val, depth: int, writer: int)
    requires
        !(k is Nil),
        packed(k, depth, writer) is Ok,
    ensures
        is_key(arrived(k)),
{
}

/// One pair read, the others are set in the table that has it.
proof fn lemma_pair_step(
    buf: Seq<u8>,
    pos: int,
    t: Tab,
    depth: int,
    room: int,
    key: (Val, int),
    value: (Val, int),
)
    requires
        value_at(buf, pos, depth, room) == Ok::<_, Stop>(key),
        is_key(key.0),
        pos < key.1 < value.1 <= buf.len(),
        value_at(buf, key.1, depth, room - 1) == Ok::<_, Stop>(value),
    ensures
        pairs_at(buf, pos, t, depth, room) == pairs_at(
            buf,
            value.1,
            t.set(key.0, value.0),
            depth,
            room,
        ),
{
}

#[verifier::rlimit(30)]
proof fn lemma_entries_back(
    t: Tab,
    es: Seq<(Val, Val)>,
    n: nat,
    depth: int,
    writer: int,
    reader: int,
    buf: Seq<u8>,
    pos: int,
)
    requires
        wireable_entries(es),
        packed_entries(es, n, depth, writer) is Ok,
        reader - 1 >= writer || reader - 1 >= MIN_STACK + 2 * (MAX_DEPTH + 1 - depth),
        holds_at(buf, pos, packed_entries(es, n, depth, writer)->Ok_0 + seq![TYPE_NIL]),
    ensures
        pairs_at(buf, pos, t, depth, reader) == Ok::<_, Stop>(
            (built(t, es, n).settled(), pos + packed_entries(es, n, depth, writer)->Ok_0.len() + 1),
        ),
    decreases es, 0nat,
{
    let b = packed_entries(es, n, depth, writer)->Ok_0;
    if es.len() == 0 {
        assert(b + seq![TYPE_NIL] =~= seq![TYPE_NIL]);
        lemma_first(buf, pos, seq![TYPE_NIL]);
    } else if in_sequence(es[0].0, n) {
        lemma_entries_back(t, es.skip(1), n, depth, writer, reader, buf, pos);
    } else {
        let k = es[0].0;
        let v = es[0].1;
        let kb = packed(k, depth, writer)->Ok_0;
        let vb = packed(v, depth, writer)->Ok_0;
        let rest = packed_entries(es.skip(1), n, depth, writer)->Ok_0;
        assert(b + seq![TYPE_NIL] =~= kb + (vb + (rest + seq![TYPE_NIL])));
        lemma_split(buf, pos, kb, vb + (rest + seq![TYPE_NIL]));
        lemma_split(buf, pos + kb.len(), vb, rest + seq![TYPE_NIL]);
        law_value_round_trip(k, depth, writer, reader, buf, pos);
        law_value_round_trip(v, depth, writer, reader - 1, buf, pos + kb.len());
        lemma_key_arrives(k, depth, writer);
        let q = pos + kb.len() + vb.len();
        lemma_pair_step(
            buf,
            pos,
            t,
            depth,
            reader,
            (arrived(k), pos + kb.len()),
            (arrived(v), q),
        );
        lemma_entries_back(
            t.set(arrived(k), arrived(v)),
            es.skip(1),
            n,
            depth,
            writer,
            reader,
            buf,
            q,
        );
        assert(b.len() == kb.len() + vb.len() + rest.len());
    }
}

/// A value without the text and coercions that the machine adds to it, without
/// metatables, and with new tables in place of those the machine has.
pub open spec fn bare(v: Val) -> Val
    decreases v,
{
    match v {
        Val::Num(bits, _) => Val::Num(bits, Seq::empty()),
        Val::Str(b, _) => Val::Str(b, None),
        Val::Table(t) => Val::Table(bare_table(t)),
        _ => v,
    }
}

pub open spec fn bare_table(t: Tab) -> Tab
    decreases t,
{
    Tab { array: bare_list(t.array), hash: bare_entries(t.hash), ..Tab::empty() }
}

pub open spec fn bare_list(vs: Seq<Val>) -> Seq<Val>
    decreases vs,
{
    Seq::new(
        vs.len(),
        |i: int|
            if 0 <= i < vs.len() {
                bare(vs[i])
            } else {
                Val::Nil
            },
    )
}

pub open spec fn bare_entries(es: Seq<(Val, Val)>) -> Seq<(Val, Val)>
    decreases es,
{
    Seq::new(
        es.len(),
        |i: int|
            if 0 <= i < es.len() {
                (bare(es[i].0), bare(es[i].1))
            } else {
                (Val::Nil, Val::Nil)
            },
    )
}

/// A value whose tables, at every depth, are as the machine hands over tables
/// that have no `__pairs`: the sequence part ends at a border, the other keys
/// are in stored form, pairwise different and outside the sequence part.
pub open spec fn proper(v: Val) -> bool
    decreases v,
{
    match v {
        Val::Table(t) => proper_table(t),
        _ => true,
    }
}

pub open spec fn proper_table(t: Tab) -> bool
    decreases t,
{
    &&& t.pairs is None
    &&& t.array.len() > 0 ==> !(t.array.last() is Nil)
    &&& t.array.len() < i64::MAX
    &&& forall|i: int|
        0 <= i < t.hash.len() ==> proper_key(#[trigger] t.hash[i].0, t.array.len())
    &&& forall|i: int| 0 <= i < t.hash.len() ==> !((#[trigger] t.hash[i].1) is Nil)
    &&& distinct_keys(t.hash)
    &&& proper_list(t.array)
    &&& proper_entries(t.hash)
}

/// A stored key that does not belong to or follow a sequence of `n` elements.
pub open spec fn proper_key(k: Val, n: nat) -> bool {
    &&& is_key(k)
    &&& stored_key(k) == k
    &&& !in_sequence(k, n + 1)
}

pub open spec fn distinct_keys(es: Seq<(Val, Val)>) -> bool {
    forall|i: int, j: int|
        0 <= i < j < es.len() ==> !raw_equal((#[trigger] es[i]).0, (#[trigger] es[j]).0)
}

pub open spec fn proper_list(vs: Seq<Val>) -> bool
    decreases vs,
{
    forall|i: int| 0 <= i < vs.len() ==> proper(#[trigger] vs[i])
}

pub open spec fn proper_entries(es: Seq<(Val, Val)>) -> bool
    decreases es,
{
    forall|i: int| 0 <= i < es.len() ==> proper((#[trigger] es[i]).0) && proper(es[i].1)
}

/// A value of proper tables arrives as it was: what it loses is the machine's
/// text and coercions and its metatables. Every table arrives as a new one with
/// its raw length and all its entries in their order.
pub proof fn law_proper_values_arrive_whole(v: Val)
    requires
        proper(v),
    ensures
        arrived(v) == bare(v),
    decreases v, 0nat,
{
    if let Val::Table(t) = v {
        lemma_table_arrives(t);
    }
}

proof fn lemma_table_arrives(t: Tab)
    requires
        proper_table(t),
    ensures
        arrived_table(t) == bare_table(t),
    decreases t, 0nat,
{
    let n = t.array.len();
    lemma_items_arrive(Seq::empty(), t.array);
    let a = arrived_items(Seq::empty(), t.array);
    assert(a =~= bare_list(t.array));
    let start = Tab { array: a, ..Tab::empty() };
    assert(t.hash.skip(0) =~= t.hash);
    assert(bare_entries(t.hash).take(0) =~= Seq::empty());
    lemma_built(start, t.hash, t.hash, n, 0);
    let full = Tab { array: a, hash: bare_entries(t.hash), ..Tab::empty() };
    assert(built(start, t.hash, n) == full);
    assert(trimmed(a) == a);
    let next = Val::Int((n + 1) as i64);
    lemma_find(full.hash, next);
    if find(full.hash, next) >= 0 {
        let j = find(full.hash, next);
        assert(raw_equal(full.hash[j].0, next));
        assert(full.hash[j].0 == bare(t.hash[j].0));
        assert(proper_key(t.hash[j].0, n));
    }
    assert(full.absorbed() == full);
}

proof fn lemma_items_arrive(done: Seq<Val>, items: Seq<Val>)
    requires
        proper_list(items),
    ensures
        arrived_items(done, items) == done + bare_list(items),
    decreases items, 0nat,
{
    if items.len() == 0 {
        assert(done + bare_list(items) =~= done);
    } else {
        law_proper_values_arrive_whole(items[0]);
        let rest = items.skip(1);
        assert forall|i: int| 0 <= i < rest.len() implies proper(#[trigger] rest[i]) by {
            assert(rest[i] == items[i + 1]);
        }
        lemma_items_arrive(done.push(arrived(items[0])), rest);
        assert(done.push(arrived(items[0])) + bare_list(rest) =~= done + bare_list(items));
    }
}

/// Keys that differ do so not by text and coercions alone.
proof fn lemma_bare_keys(a: Val, b: Val)
    ensures
        raw_equal(bare(a), bare(b)) ==> raw_equal(a, b),
{
}

proof fn lemma_built(t: Tab, all: Seq<(Val, Val)>, es: Seq<(Val, Val)>, n: nat, i: int)
    requires
        0 <= i <= all.len(),
        es == all.skip(i),
        t.array.len() == n,
        t.hash == bare_entries(all).take(i),
        distinct_keys(all),
        forall|j: int| 0 <= j < all.len() ==> proper_key(#[trigger] all[j].0, n),
        forall|j: int| 0 <= j < all.len() ==> !((#[trigger] all[j].1) is Nil),
        proper_entries(es),
    ensures
        built(t, es, n) == (Tab { hash: bare_entries(all), ..t }),
    decreases es, 0nat,
{
    if es.len() == 0 {
        assert(t.hash =~= bare_entries(all));
    } else {
        let k = es[0].0;
        let v = es[0].1;
        assert(es[0] == all[i]);
        assert(proper_key(all[i].0, n));
        assert(!(all[i].1 is Nil));
        law_proper_values_arrive_whole(k);
        law_proper_values_arrive_whole(v);
        let ak = arrived(k);
        assert(stored_key(ak) == ak);
        lemma_find(t.hash, ak);
        if find(t.hash, ak) >= 0 {
            let j = find(t.hash, ak);
            assert(t.hash[j].0 == bare(all[j].0));
            lemma_bare_keys(all[j].0, all[i].0);
        }
        let next = t.set(ak, arrived(v));
        assert(next.hash =~= bare_entries(all).take(i + 1));
        assert(es.skip(1) =~= all.skip(i + 1));
        let rest = es.skip(1);
        assert forall|j: int| 0 <= j < rest.len() implies proper((#[trigger] rest[j]).0)
            && proper(rest[j].1) by {
            assert(rest[j] == es[j + 1]);
        }
        lemma_built(next, all, rest, n, i + 1);
    }
}

} // verus!
