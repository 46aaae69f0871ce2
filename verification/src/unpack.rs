//! Reading serialized Lua values back.
use vstd::prelude::*;
use vstd::string::*;

use crate::number::{bits64, integer64, signed64, unsigned64};
use crate::pack::{
    le_value, signed32, MAX_COOKIE, MAX_DEPTH, MIN_STACK, TYPE_BOOLEAN, TYPE_LONG_STRING, TYPE_NIL,
    TYPE_NUMBER, TYPE_NUMBER_BYTE, TYPE_NUMBER_DWORD, TYPE_NUMBER_QWORD, TYPE_NUMBER_REAL,
    TYPE_NUMBER_WORD, TYPE_NUMBER_ZERO, TYPE_SHORT_STRING, TYPE_TABLE, TYPE_USERDATA,
};
use crate::text::{decimal, push_u64};
use crate::value::{
    above_key, above_table, copy_bytes, is_key, lemma_list_push, listed, nothing, view_list,
    LuaValue, Tab, TableValue, Val,
};

verus! {

/// Why a stream cannot be read. A malformed stream is reported with the bytes
/// left where reading stopped and the number, in reports called a line, of the
/// check that refused it.
#[derive(Clone, Copy, Debug, PartialEq, Eq, Structural)]
pub enum DecodeError {
    InvalidStream { remaining: usize, line: u32 },
    TooDeep,
    StackOverflow,
    /// The machine refuses to index a table with a NaN.
    NanKey,
}

/// The numbers of the checks, by what could not be read.
pub const LINE_BYTE: u32 = 432;

pub const LINE_U16: u32 = 451;

pub const LINE_U32: u32 = 461;

pub const LINE_I32: u32 = 471;

pub const LINE_I64: u32 = 481;

pub const LINE_REAL: u32 = 491;

pub const LINE_POINTER: u32 = 501;

pub const LINE_CONSUME: u32 = 510;

pub const LINE_INTEGER: u32 = 530;

pub const LINE_LONG_STRING: u32 = 578;

pub const LINE_KIND: u32 = 588;

pub const LINE_TABLE_SIZE: u32 = 608;

/// The message of a decoding error.
pub open spec fn decode_error_text(e: DecodeError) -> Seq<char> {
    match e {
        DecodeError::InvalidStream { remaining, line } => "Invalid serialize stream "@ + decimal(
            remaining as int,
        ) + " (line:"@ + decimal(line as int) + ")"@,
        DecodeError::TooDeep => "serialize unpack: too deep"@,
        DecodeError::StackOverflow => "stack overflow"@,
        DecodeError::NanKey => "table index is NaN"@,
    }
}

impl DecodeError {
    /// The message of the error.
    pub fn message(&self) -> (r: String)
        ensures
            r@ == decode_error_text(*self),
    {
        match *self {
            DecodeError::InvalidStream { remaining, line } => {
                let mut s = "Invalid serialize stream ".to_owned();
                push_u64(&mut s, remaining as u64);
                s.append(" (line:");
                push_u64(&mut s, line as u64);
                s.append(")");
                s
            },
            DecodeError::TooDeep => "serialize unpack: too deep".to_owned(),
            DecodeError::StackOverflow => "stack overflow".to_owned(),
            DecodeError::NanKey => "table index is NaN".to_owned(),
        }
    }
}

/// Where and why reading stopped, and what it leaves on the stack: the tables
/// that it was filling, each with the key it had read for the next entry, the
/// outermost first.
pub struct Stop {
    pub error: DecodeError,
    pub pos: int,
    pub left: Seq<Val>,
}

/// A stop that leaves nothing.
pub open spec fn halt(error: DecodeError, pos: int) -> Stop {
    Stop { error, pos, left: Seq::empty() }
}

/// A stop while something was being read for a value that is itself unfinished.
pub open spec fn within(held: Seq<Val>, s: Stop) -> Stop {
    Stop { left: held + s.left, ..s }
}

/// The report of a malformed stream at a position.
pub open spec fn malformed(buf: Seq<u8>, pos: int, line: u32) -> DecodeError {
    DecodeError::InvalidStream { remaining: (buf.len() - pos) as usize, line }
}

/// The refusal of a stream at a position.
pub open spec fn invalid(buf: Seq<u8>, pos: int, line: u32) -> Stop {
    halt(malformed(buf, pos, line), pos)
}

/// The number in the next `k` bytes.
pub open spec fn number_at(buf: Seq<u8>, pos: int, k: nat, line: u32) -> Result<
    (nat, int),
    Stop,
> {
    if buf.len() - pos < k {
        Err(invalid(buf, pos, line))
    } else {
        Ok((le_value(buf.subrange(pos, pos + k)), pos + k))
    }
}

/// The next `n` bytes.
pub open spec fn bytes_at(buf: Seq<u8>, pos: int, n: nat) -> Result<(Seq<u8>, int), Stop> {
    if buf.len() - pos < n {
        Err(invalid(buf, pos, LINE_CONSUME))
    } else {
        Ok((buf.subrange(pos, pos + n), pos + n))
    }
}

/// The integer that a number cookie announces.
pub open spec fn integer_at(buf: Seq<u8>, pos: int, cookie: u8) -> Result<(i64, int), Stop> {
    if cookie == TYPE_NUMBER_ZERO {
        Ok((0, pos))
    } else if cookie == TYPE_NUMBER_BYTE {
        match number_at(buf, pos, 1, LINE_BYTE) {
            Ok((n, p)) => Ok((n as i64, p)),
            Err(e) => Err(e),
        }
    } else if cookie == TYPE_NUMBER_WORD {
        match number_at(buf, pos, 2, LINE_U16) {
            Ok((n, p)) => Ok((n as i64, p)),
            Err(e) => Err(e),
        }
    } else if cookie == TYPE_NUMBER_DWORD {
        match number_at(buf, pos, 4, LINE_I32) {
            Ok((n, p)) => Ok((signed32(n) as i64, p)),
            Err(e) => Err(e),
        }
    } else if cookie == TYPE_NUMBER_QWORD {
        match number_at(buf, pos, 8, LINE_I64) {
            Ok((n, p)) => Ok((signed64(n) as i64, p)),
            Err(e) => Err(e),
        }
    } else {
        Err(invalid(buf, pos, LINE_INTEGER))
    }
}

/// The string of a given length.
pub open spec fn string_at(buf: Seq<u8>, pos: int, n: nat) -> Result<(Val, int), Stop> {
    match bytes_at(buf, pos, n) {
        Ok((b, p)) => Ok((Val::Str(b, None), p)),
        Err(e) => Err(e),
    }
}

/// The number of sequence elements that a table cookie announces.
pub open spec fn size_at(buf: Seq<u8>, pos: int, cookie: u8) -> Result<(nat, int), Stop> {
    if cookie != 31 {
        Ok((cookie as nat, pos))
    } else if pos >= buf.len() {
        Err(invalid(buf, pos, LINE_BYTE))
    } else if buf[pos] % 8 != TYPE_NUMBER || buf[pos] / 8 == TYPE_NUMBER_REAL {
        Err(invalid(buf, pos + 1, LINE_TABLE_SIZE))
    } else {
        match integer_at(buf, pos + 1, buf[pos] / 8) {
            Ok((n, p)) => Ok((unsigned64(n as int), p)),
            Err(e) => Err(e),
        }
    }
}

/// The value at a position, `depth` tables deep, with `room` free stack slots,
/// and the position behind it.
pub open spec fn value_at(buf: Seq<u8>, pos: int, depth: int, room: int) -> Result<
    (Val, int),
    Stop,
>
    decreases buf.len() - pos, 0nat,
{
    if pos < 0 || pos >= buf.len() {
        Err(invalid(buf, pos, LINE_BYTE))
    } else {
        body_at(buf, pos + 1, buf[pos] % 8, buf[pos] / 8, depth, room)
    }
}

/// The value behind a tag byte.
pub open spec fn body_at(
    buf: Seq<u8>,
    pos: int,
    kind: u8,
    cookie: u8,
    depth: int,
    room: int,
) -> Result<(Val, int), Stop>
    decreases buf.len() - pos, 3nat,
{
    if kind == TYPE_NIL {
        Ok((Val::Nil, pos))
    } else if kind == TYPE_BOOLEAN {
        Ok((Val::Bool(cookie != 0), pos))
    } else if kind == TYPE_NUMBER {
        if cookie == TYPE_NUMBER_REAL {
            match number_at(buf, pos, 8, LINE_REAL) {
                Ok((n, p)) => Ok((Val::Num(n as u64, Seq::empty()), p)),
                Err(e) => Err(e),
            }
        } else {
            match integer_at(buf, pos, cookie) {
                Ok((n, p)) => Ok((Val::Int(n), p)),
                Err(e) => Err(e),
            }
        }
    } else if kind == TYPE_USERDATA {
        match number_at(buf, pos, 8, LINE_POINTER) {
            Ok((n, p)) => Ok((Val::Light(n as u64), p)),
            Err(e) => Err(e),
        }
    } else if kind == TYPE_SHORT_STRING {
        string_at(buf, pos, cookie as nat)
    } else if kind == TYPE_LONG_STRING {
        if cookie == 2 {
            match number_at(buf, pos, 2, LINE_U16) {
                Ok((n, p)) => string_at(buf, p, n),
                Err(e) => Err(e),
            }
        } else if cookie != 4 {
            Err(invalid(buf, pos, LINE_LONG_STRING))
        } else {
            match number_at(buf, pos, 4, LINE_U32) {
                Ok((n, p)) => string_at(buf, p, n),
                Err(e) => Err(e),
            }
        }
    } else if kind == TYPE_TABLE {
        match table_at(buf, pos, cookie, depth, room) {
            Ok((t, p)) => Ok((Val::Table(t), p)),
            Err(e) => Err(e),
        }
    } else {
        Err(invalid(buf, pos, LINE_KIND))
    }
}

/// The table behind its tag byte.
pub open spec fn table_at(buf: Seq<u8>, pos: int, cookie: u8, depth: int, room: int) -> Result<
    (Tab, int),
    Stop,
>
    decreases buf.len() - pos, 2nat,
{
    if depth > MAX_DEPTH {
        Err(halt(DecodeError::TooDeep, pos))
    } else {
        match size_at(buf, pos, cookie) {
            Err(e) => Err(e),
            Ok((n, p)) => if room < MIN_STACK {
                Err(halt(DecodeError::StackOverflow, p))
            } else {
                match items_at(buf, p, n, Seq::empty(), depth + 1, room - 1) {
                    Err(e) => Err(e),
                    Ok((items, q)) => if p <= q <= buf.len() {
                        pairs_at(
                            buf,
                            q,
                            Tab { array: items, ..Tab::empty() },
                            depth + 1,
                            room - 1,
                        )
                    } else {
                        Err(invalid(buf, q, LINE_BYTE))
                    },
                }
            },
        }
    }
}

/// The next `n` values after those in `done`. A stop leaves their table.
pub open spec fn items_at(
    buf: Seq<u8>,
    pos: int,
    n: nat,
    done: Seq<Val>,
    depth: int,
    room: int,
) -> Result<(Seq<Val>, int), Stop>
    decreases buf.len() - pos, 1nat,
{
    if n == 0 {
        Ok((done, pos))
    } else {
        match value_at(buf, pos, depth, room) {
            Err(s) => Err(within(seq![listed(done)], s)),
            Ok((v, p)) => if pos < p <= buf.len() {
                items_at(buf, p, (n - 1) as nat, done.push(v), depth, room)
            } else {
                Err(invalid(buf, p, LINE_BYTE))
            },
        }
    }
}

/// The pairs up to the closing nil, set one after another in `t`. A stop leaves
/// the table and, where a value could not be read, its key.
pub open spec fn pairs_at(buf: Seq<u8>, pos: int, t: Tab, depth: int, room: int) -> Result<
    (Tab, int),
    Stop,
>
    decreases buf.len() - pos, 1nat,
{
    match value_at(buf, pos, depth, room) {
        Err(s) => Err(within(seq![Val::Table(t.settled())], s)),
        Ok((k, p)) => if k is Nil {
            Ok((t.settled(), p))
        } else if !(pos < p <= buf.len()) {
            Err(invalid(buf, p, LINE_BYTE))
        } else {
            match value_at(buf, p, depth, room - 1) {
                Err(s) => Err(within(seq![Val::Table(t.settled()), k], s)),
                Ok((v, q)) => if !is_key(k) {
                    Err(within(seq![Val::Table(t.settled()), k, v], halt(DecodeError::NanKey, q)))
                } else if p < q <= buf.len() {
                    pairs_at(buf, q, t.set(k, v), depth, room)
                } else {
                    Err(invalid(buf, q, LINE_BYTE))
                },
            }
        },
    }
}

/// A reader over a byte string, with the first error it met.
pub struct ReadBlock<'a> {
    pub buf: &'a [u8],
    pub pos: usize,
    pub error: Option<DecodeError>,
}

/// How reading from a block turned out, against the outcome it is meant to have.
pub open spec fn read_as<T>(
    before: ReadBlock,
    after: ReadBlock,
    got: Option<T>,
    want: Result<(T, int), Stop>,
) -> bool {
    &&& after.buf@ == before.buf@
    &&& after.wf()
    &&& match want {
        Ok((v, p)) => got == Some(v) && after.pos == p && after.error == before.error,
        Err(s) => got is None && after.pos == s.pos && after.error == before.first_error(s.error),
    }
}

/// How building a value from a block turned out, against the outcome it is meant
/// to have.
pub open spec fn built_as<T>(
    before: ReadBlock,
    after: ReadBlock,
    got: Result<T, Seq<Val>>,
    want: Result<(T, int), Stop>,
) -> bool {
    &&& after.buf@ == before.buf@
    &&& after.wf()
    &&& before.pos <= after.pos
    &&& match want {
        Ok((v, p)) => got == Ok::<T, Seq<Val>>(v) && after.pos == p && after.error == before.error,
        Err(s) => got == Err::<T, Seq<Val>>(s.left) && after.pos == s.pos && after.error
            == before.first_error(s.error),
    }
}

/// The model of a value, or of what an attempt at it leaves.
pub open spec fn shown(v: Result<LuaValue, Vec<LuaValue>>) -> Result<Val, Seq<Val>> {
    match v {
        Ok(v) => Ok(v@),
        Err(left) => Err(view_list(left)),
    }
}

/// The model of a table, or of what an attempt at it leaves.
pub open spec fn shown_table(t: Result<TableValue, Vec<LuaValue>>) -> Result<Tab, Seq<Val>> {
    match t {
        Ok(t) => Ok(t@),
        Err(left) => Err(view_list(left)),
    }
}

/// `256` to the power `k`.
pub open spec fn pow256(k: nat) -> nat
    decreases k,
{
    if k == 0 {
        1
    } else {
        256 * pow256((k - 1) as nat)
    }
}

/// A number of `k` bytes lies below `256` to the power `k`.
pub proof fn lemma_le_value_bound(b: Seq<u8>)
    ensures
        le_value(b) < pow256(b.len()),
    decreases b.len(),
{
    if b.len() > 0 {
        lemma_le_value_bound(b.skip(1));
    }
}

/// The sizes that numbers in a stream can have.
pub proof fn lemma_pow256()
    ensures
        pow256(1) == 0x100,
        pow256(2) == 0x1_0000,
        pow256(4) == 0x1_0000_0000,
        pow256(8) == 0x1_0000_0000_0000_0000,
{
    reveal_with_fuel(pow256, 9);
}

/// A value that could be read takes at least one byte.
pub proof fn lemma_value_progress(buf: Seq<u8>, pos: int, depth: int, room: int)
    ensures
        value_at(buf, pos, depth, room) matches Ok((_, p)) ==> pos < p <= buf.len(),
    decreases buf.len() - pos, 0nat,
{
    if 0 <= pos < buf.len() {
        lemma_body_progress(buf, pos + 1, buf[pos] % 8, buf[pos] / 8, depth, room);
    }
}

/// Reading goes forward and stays in the stream.
pub proof fn lemma_body_progress(
    buf: Seq<u8>,
    pos: int,
    kind: u8,
    cookie: u8,
    depth: int,
    room: int,
)
    requires
        pos <= buf.len(),
    ensures
        body_at(buf, pos, kind, cookie, depth, room) matches Ok((_, p)) ==> pos <= p <= buf.len(),
    decreases buf.len() - pos, 3nat,
{
    lemma_table_progress(buf, pos, cookie, depth, room);
}

/// Reading a table goes forward and stays in the stream.
pub proof fn lemma_table_progress(buf: Seq<u8>, pos: int, cookie: u8, depth: int, room: int)
    requires
        pos <= buf.len(),
    ensures
        size_at(buf, pos, cookie) matches Ok((_, p)) ==> pos <= p <= buf.len(),
        table_at(buf, pos, cookie, depth, room) matches Ok((_, p)) ==> pos <= p <= buf.len(),
    decreases buf.len() - pos, 2nat,
{
    if let Ok((n, p)) = size_at(buf, pos, cookie) {
        lemma_items_progress(buf, p, n, Seq::empty(), depth + 1, room - 1);
        if let Ok((items, q)) = items_at(buf, p, n, Seq::empty(), depth + 1, room - 1) {
            lemma_pairs_progress(
                buf,
                q,
                Tab { array: items, ..Tab::empty() },
                depth + 1,
                room - 1,
            );
        }
    }
}

/// Reading sequence elements goes forward and stays in the stream.
pub proof fn lemma_items_progress(
    buf: Seq<u8>,
    pos: int,
    n: nat,
    done: Seq<Val>,
    depth: int,
    room: int,
)
    requires
        pos <= buf.len(),
    ensures
        items_at(buf, pos, n, done, depth, room) matches Ok((_, p)) ==> pos <= p <= buf.len(),
    decreases buf.len() - pos, 1nat,
{
    if n > 0 {
        lemma_value_progress(buf, pos, depth, room);
        if let Ok((v, p)) = value_at(buf, pos, depth, room) {
            lemma_items_progress(buf, p, (n - 1) as nat, done.push(v), depth, room);
        }
    }
}

/// Reading pairs goes forward and stays in the stream.
pub proof fn lemma_pairs_progress(buf: Seq<u8>, pos: int, t: Tab, depth: int, room: int)
    requires
        pos <= buf.len(),
    ensures
        pairs_at(buf, pos, t, depth, room) matches Ok((_, p)) ==> pos <= p <= buf.len(),
    decreases buf.len() - pos, 1nat,
{
    lemma_value_progress(buf, pos, depth, room);
    if let Ok((k, p)) = value_at(buf, pos, depth, room) {
        lemma_value_progress(buf, p, depth, room - 1);
        if let Ok((v, q)) = value_at(buf, p, depth, room - 1) {
            lemma_pairs_progress(buf, q, t.set(k, v), depth, room);
        }
    }
}

impl<'a> ReadBlock<'a> {
    /// The position lies in the byte string.
    pub open spec fn wf(self) -> bool {
        self.pos <= self.buf@.len()
    }

    /// The error that is kept when another one comes.
    pub open spec fn first_error(self, e: DecodeError) -> Option<DecodeError> {
        match self.error {
            Some(first) => Some(first),
            None => Some(e),
        }
    }

    /// A reader at the start of a byte string.
    pub fn new(buf: &'a [u8]) -> (r: ReadBlock<'a>)
        ensures
            r.buf@ == buf@,
            r.pos == 0,
            r.error is None,
            r.wf(),
    {
        ReadBlock { buf, pos: 0, error: None }
    }

    /// The bytes left.
    pub fn len(&self) -> (r: usize)
        requires
            self.wf(),
        ensures
            r == self.buf@.len() - self.pos,
    {
        self.buf.len() - self.pos
    }

    /// The bytes read.
    pub fn offset(&self) -> (r: usize)
        ensures
            r == self.pos,
    {
        self.pos
    }

    /// Notes an error, unless there is one already.
    pub fn fail(&mut self, error: DecodeError)
        ensures
            final(self).buf@ == old(self).buf@,
            final(self).pos == old(self).pos,
            final(self).error == old(self).first_error(error),
    {
        if self.error.is_none() {
            self.error = Some(error);
        }
    }

    /// Notes that the stream is malformed here.
    pub fn fail_invalid(&mut self, line: u32)
        requires
            old(self).wf(),
        ensures
            final(self).buf@ == old(self).buf@,
            final(self).pos == old(self).pos,
            final(self).error == old(self).first_error(
                malformed(old(self).buf@, old(self).pos as int, line),
            ),
    {
        let remaining = self.len();
        self.fail(DecodeError::InvalidStream { remaining, line });
    }

    /// The error noted.
    pub fn error(&self) -> (r: DecodeError)
        requires
            self.wf(),
        ensures
            r == match self.error {
                Some(e) => e,
                None => malformed(self.buf@, self.pos as int, 0),
            },
    {
        match self.error {
            Some(e) => e,
            None => DecodeError::InvalidStream { remaining: self.len(), line: 0 },
        }
    }

    /// The next byte; running out is an error.
    pub fn read_byte(&mut self) -> (r: Option<u8>)
        requires
            old(self).wf(),
        ensures
            read_as(
                *old(self),
                *final(self),
                r,
                if old(self).pos >= old(self).buf@.len() {
                    Err(invalid(old(self).buf@, old(self).pos as int, LINE_BYTE))
                } else {
                    Ok((old(self).buf@[old(self).pos as int], old(self).pos + 1))
                },
            ),
    {
        if self.pos >= self.buf.len() {
            self.fail_invalid(LINE_BYTE);
            return None;
        }
        let b = self.buf[self.pos];
        self.pos = self.pos + 1;
        Some(b)
    }

    /// The next byte, if there is one.
    pub fn try_read_byte(&mut self) -> (r: Option<u8>)
        requires
            old(self).wf(),
        ensures
            final(self).buf@ == old(self).buf@,
            final(self).error == old(self).error,
            final(self).wf(),
            if old(self).pos >= old(self).buf@.len() {
                r is None && final(self).pos == old(self).pos
            } else {
                &&& r == Some(old(self).buf@[old(self).pos as int])
                &&& final(self).pos == old(self).pos + 1
            },
    {
        if self.pos >= self.buf.len() {
            return None;
        }
        let b = self.buf[self.pos];
        self.pos = self.pos + 1;
        Some(b)
    }

    /// The number in the next `k` bytes.
    fn read_le(&mut self, k: usize, line: u32) -> (r: Option<u64>)
        requires
            old(self).wf(),
            k <= 8,
        ensures
            final(self).buf@ == old(self).buf@,
            final(self).wf(),
            match number_at(old(self).buf@, old(self).pos as int, k as nat, line) {
                Ok((n, p)) => {
                    &&& r matches Some(m) && m == n && n < pow256(k as nat)
                    &&& final(self).pos == p
                    &&& final(self).error == old(self).error
                },
                Err(s) => {
                    &&& r is None
                    &&& final(self).pos == old(self).pos
                    &&& final(self).error == old(self).first_error(s.error)
                },
            },
    {
        let total = self.buf.len();
        if total - self.pos < k {
            self.fail_invalid(line);
            return None;
        }
        let ghost whole = self.buf@.subrange(self.pos as int, self.pos + k);
        let mut i: usize = k;
        let mut n: u64 = 0;
        proof {
            lemma_pow256();
        }
        assert(whole.skip(k as int) =~= Seq::empty());
        while i > 0
            invariant
                i <= k <= 8,
                total == self.buf@.len(),
                self.pos + k <= total,
                whole == self.buf@.subrange(self.pos as int, self.pos + k),
                n == le_value(whole.skip(i as int)),
            decreases i,
        {
            let ghost rest = whole.skip(i - 1);
            assert(rest.skip(1) =~= whole.skip(i as int));
            assert(rest[0] == self.buf@[self.pos + i - 1]);
            proof {
                lemma_le_value_bound(rest);
                lemma_pow256_grows(rest.len(), 8);
                lemma_pow256();
            }
            i = i - 1;
            n = self.buf[self.pos + i] as u64 + 256 * n;
        }
        assert(whole.skip(0) =~= whole);
        proof {
            lemma_le_value_bound(whole);
        }
        self.pos = self.pos + k;
        Some(n)
    }

    /// The next `n` bytes.
    fn consume(&mut self, n: usize) -> (r: Option<Vec<u8>>)
        requires
            old(self).wf(),
        ensures
            final(self).buf@ == old(self).buf@,
            final(self).wf(),
            match bytes_at(old(self).buf@, old(self).pos as int, n as nat) {
                Ok((b, p)) => {
                    &&& r matches Some(v) && v@ == b
                    &&& final(self).pos == p
                    &&& final(self).error == old(self).error
                },
                Err(s) => {
                    &&& r is None
                    &&& final(self).pos == old(self).pos
                    &&& final(self).error == old(self).first_error(s.error)
                },
            },
    {
        let total = self.buf.len();
        if total - self.pos < n {
            self.fail_invalid(LINE_CONSUME);
            return None;
        }
        let bytes = copy_bytes(vstd::slice::slice_subrange(self.buf, self.pos, self.pos + n));
        self.pos = self.pos + n;
        Some(bytes)
    }
}

/// More bytes hold larger numbers.
pub proof fn lemma_pow256_grows(a: nat, b: nat)
    requires
        a <= b,
    ensures
        1 <= pow256(a) <= pow256(b),
    decreases b,
{
    if a < b {
        lemma_pow256_grows(a, (b - 1) as nat);
    } else if b > 0 {
        lemma_pow256_grows((a - 1) as nat, (b - 1) as nat);
    }
}

/// The integer that a number cookie announces. Where it cannot be read, the
/// position stays.
pub fn get_integer(br: &mut ReadBlock, cookie: u8) -> (r: Option<i64>)
    requires
        old(br).wf(),
    ensures
        read_as(*old(br), *final(br), r, integer_at(old(br).buf@, old(br).pos as int, cookie)),
        r is None ==> final(br).pos == old(br).pos,
{
    proof {
        lemma_pow256();
    }
    match cookie {
        TYPE_NUMBER_ZERO => Some(0),
        TYPE_NUMBER_BYTE => Some(br.read_le(1, LINE_BYTE)? as i64),
        TYPE_NUMBER_WORD => Some(br.read_le(2, LINE_U16)? as i64),
        TYPE_NUMBER_DWORD => {
            let n = br.read_le(4, LINE_I32)?;
            if n < 0x8000_0000 {
                Some(n as i64)
            } else {
                Some(n as i64 - 0x1_0000_0000)
            }
        },
        TYPE_NUMBER_QWORD => Some(integer64(br.read_le(8, LINE_I64)?)),
        _ => {
            br.fail_invalid(LINE_INTEGER);
            None
        },
    }
}

/// The string of a given length.
fn read_string(br: &mut ReadBlock, n: usize) -> (r: Result<LuaValue, Vec<LuaValue>>)
    requires
        old(br).wf(),
    ensures
        built_as(
            *old(br),
            *final(br),
            shown(r),
            string_at(old(br).buf@, old(br).pos as int, n as nat),
        ),
{
    match br.consume(n) {
        Some(bytes) => Ok(LuaValue::from_bytes(bytes)),
        None => Err(nothing()),
    }
}

/// The number of sequence elements that a table cookie announces.
fn table_size(br: &mut ReadBlock, cookie: u8) -> (r: Option<u64>)
    requires
        old(br).wf(),
    ensures
        final(br).buf@ == old(br).buf@,
        final(br).wf(),
        match size_at(old(br).buf@, old(br).pos as int, cookie) {
            Ok((n, p)) => r matches Some(m) && m == n && final(br).pos == p && final(br).error
                == old(br).error,
            Err(s) => {
                &&& r is None
                &&& final(br).pos == s.pos
                &&& final(br).error == old(br).first_error(s.error)
            },
        },
{
    if cookie != MAX_COOKIE - 1 {
        return Some(cookie as u64);
    }
    let head = br.read_byte()?;
    if head % 8 != TYPE_NUMBER || head / 8 == TYPE_NUMBER_REAL {
        br.fail_invalid(LINE_TABLE_SIZE);
        return None;
    }
    Some(bits64(get_integer(br, head / 8)?))
}

/// What an attempt leaves on the stack that stopped at setting an entry.
fn above_pair(t: TableValue, key: LuaValue, v: LuaValue) -> (r: Vec<LuaValue>)
    ensures
        view_list(r) == seq![Val::Table(t@), key@, v@] + Seq::<Val>::empty(),
{
    let mut above = nothing();
    let ghost before = above;
    above.push(v);
    proof {
        lemma_list_push(before, above, v);
    }
    let r = above_key(t, key, above);
    assert(view_list(r) =~= seq![Val::Table(t@), key@, v@] + Seq::<Val>::empty());
    r
}

/// Reads a value, tag byte first. Where that fails, gives what is left on the
/// stack of it.
pub fn unpack_one(br: &mut ReadBlock, depth: usize, room: usize) -> (r: Result<
    LuaValue,
    Vec<LuaValue>,
>)
    requires
        old(br).wf(),
    ensures
        built_as(
            *old(br),
            *final(br),
            shown(r),
            value_at(old(br).buf@, old(br).pos as int, depth as int, room as int),
        ),
    decreases old(br).buf@.len() - old(br).pos, 0nat,
{
    match br.read_byte() {
        Some(head) => push_value(br, head % 8, head / 8, depth, room),
        None => Err(nothing()),
    }
}

/// Reads the value behind a tag byte. Where that fails, gives what is left on
/// the stack of it.
pub fn push_value(br: &mut ReadBlock, kind: u8, cookie: u8, depth: usize, room: usize) -> (r:
    Result<LuaValue, Vec<LuaValue>>)
    requires
        old(br).wf(),
    ensures
        built_as(
            *old(br),
            *final(br),
            shown(r),
            body_at(old(br).buf@, old(br).pos as int, kind, cookie, depth as int, room as int),
        ),
    decreases old(br).buf@.len() - old(br).pos, 3nat,
{
    proof {
        lemma_pow256();
    }
    match kind {
        TYPE_NIL => Ok(LuaValue::Nil),
        TYPE_BOOLEAN => Ok(LuaValue::Boolean(cookie != 0)),
        TYPE_NUMBER => {
            if cookie == TYPE_NUMBER_REAL {
                match br.read_le(8, LINE_REAL) {
                    Some(bits) => Ok(LuaValue::from_bits(bits)),
                    None => Err(nothing()),
                }
            } else {
                match get_integer(br, cookie) {
                    Some(n) => Ok(LuaValue::Integer(n)),
                    None => Err(nothing()),
                }
            }
        },
        TYPE_USERDATA => {
            match br.read_le(8, LINE_POINTER) {
                Some(p) => Ok(LuaValue::LightUserData(p)),
                None => Err(nothing()),
            }
        },
        TYPE_SHORT_STRING => read_string(br, cookie as usize),
        TYPE_LONG_STRING => {
            if cookie == 2 {
                match br.read_le(2, LINE_U16) {
                    Some(n) => read_string(br, n as usize),
                    None => Err(nothing()),
                }
            } else if cookie != 4 {
                br.fail_invalid(LINE_LONG_STRING);
                Err(nothing())
            } else {
                match br.read_le(4, LINE_U32) {
                    Some(n) => read_string(br, n as usize),
                    None => Err(nothing()),
                }
            }
        },
        TYPE_TABLE => {
            match unpack_table(br, cookie, depth, room) {
                Ok(t) => Ok(LuaValue::Table(t)),
                Err(left) => Err(left),
            }
        },
        _ => {
            br.fail_invalid(LINE_KIND);
            Err(nothing())
        },
    }
}

/// Reads a table behind its tag byte. Where that fails, gives what is left on
/// the stack of it.
#[verifier::rlimit(30)]
pub fn unpack_table(br: &mut ReadBlock, cookie: u8, depth: usize, room: usize) -> (r: Result<
    TableValue,
    Vec<LuaValue>,
>)
    requires
        old(br).wf(),
    ensures
        built_as(
            *old(br),
            *final(br),
            shown_table(r),
            table_at(old(br).buf@, old(br).pos as int, cookie, depth as int, room as int),
        ),
    decreases old(br).buf@.len() - old(br).pos, 2nat,
{
    let ghost buf = br.buf@;
    let ghost start = br.pos as int;
    if depth > MAX_DEPTH {
        br.fail(DecodeError::TooDeep);
        return Err(nothing());
    }
    let size = match table_size(br, cookie) {
        Some(n) => n,
        None => {
            return Err(nothing());
        },
    };
    if room < MIN_STACK {
        br.fail(DecodeError::StackOverflow);
        return Err(nothing());
    }
    proof {
        lemma_table_progress(buf, start, cookie, depth as int, room as int);
    }
    let ghost p = br.pos as int;
    let ghost want = items_at(buf, p, size as nat, Seq::empty(), depth + 1, room - 1);
    let mut t = TableValue::new();
    let mut left: u64 = size;
    while left > 0
        invariant
            br.wf(),
            br.buf@ == buf,
            br.error == old(br).error,
            start <= p <= br.pos,
            old(br).buf@ == buf,
            old(br).pos == start,
            depth <= MAX_DEPTH,
            room >= MIN_STACK,
            want == items_at(
                buf,
                br.pos as int,
                left as nat,
                t@.array,
                depth + 1,
                room - 1,
            ),
            t@ == (Tab { array: t@.array, ..Tab::empty() }),
            table_at(buf, start, cookie, depth as int, room as int) == match want {
                Err(s) => Err::<(Tab, int), Stop>(s),
                Ok((items, q)) => if p <= q <= buf.len() {
                    pairs_at(
                        buf,
                        q,
                        Tab { array: items, ..Tab::empty() },
                        depth + 1,
                        room - 1,
                    )
                } else {
                    Err(invalid(buf, q, LINE_BYTE))
                },
            },
        decreases left,
    {
        proof {
            lemma_value_progress(buf, br.pos as int, depth + 1, room - 1);
        }
        let v = match unpack_one(br, depth + 1, room - 1) {
            Ok(v) => v,
            Err(above) => {
                t.settle();
                return Err(above_table(t, above));
            },
        };
        let ghost before = t.array;
        t.array.push(v);
        proof {
            lemma_list_push(before, t.array, v);
        }
        left = left - 1;
    }
    let ghost goal = table_at(buf, start, cookie, depth as int, room as int);
    loop
        invariant
            br.wf(),
            br.buf@ == buf,
            br.error == old(br).error,
            start <= br.pos,
            old(br).buf@ == buf,
            old(br).pos == start,
            depth <= MAX_DEPTH,
            room >= MIN_STACK,
            goal == table_at(buf, start, cookie, depth as int, room as int),
            goal == pairs_at(buf, br.pos as int, t@, depth + 1, room - 1),
        decreases buf.len() - br.pos,
    {
        proof {
            lemma_value_progress(buf, br.pos as int, depth + 1, room - 1);
        }
        let key = match unpack_one(br, depth + 1, room - 1) {
            Ok(key) => key,
            Err(above) => {
                t.settle();
                return Err(above_table(t, above));
            },
        };
        if key.is_nil() {
            t.settle();
            return Ok(t);
        }
        proof {
            lemma_value_progress(buf, br.pos as int, depth + 1, room - 2);
        }
        let v = match unpack_one(br, depth + 1, room - 2) {
            Ok(v) => v,
            Err(above) => {
                t.settle();
                return Err(above_key(t, key, above));
            },
        };
        if !key.is_key() {
            br.fail(DecodeError::NanKey);
            t.settle();
            return Err(above_pair(t, key, v));
        }
        t.set(key, v);
    }
}

/// The values from a position to the end, after those in `done`, on a stack of
/// `limit` slots. Room is asked for in steps of eight values. An error comes with
/// what is then on the stack: the values read and what is left of the next one.
pub open spec fn values_at(buf: Seq<u8>, pos: int, done: Seq<Val>, limit: int) -> Result<
    Seq<Val>,
    (DecodeError, Seq<Val>),
>
    decreases buf.len() - pos,
{
    if done.len() % 8 == 7 && limit - done.len() < 8 {
        Err((DecodeError::StackOverflow, done))
    } else if pos >= buf.len() {
        Ok(done)
    } else {
        match value_at(buf, pos, 0, limit - done.len()) {
            Err(s) => Err((s.error, done + s.left)),
            Ok((v, p)) => if pos < p <= buf.len() {
                values_at(buf, p, done.push(v), limit)
            } else {
                Err((malformed(buf, p, LINE_BYTE), done))
            },
        }
    }
}

/// Values, and others above them.
pub fn stacked(below: Vec<LuaValue>, above: Vec<LuaValue>) -> (r: Vec<LuaValue>)
    ensures
        view_list(r) == view_list(below) + view_list(above),
{
    let mut r = below;
    let mut above_ = above;
    r.append(&mut above_);
    assert(view_list(r) =~= view_list(below) + view_list(above));
    r
}

/// Reads every value of a byte string onto an empty stack of `limit` slots. The
/// machine gives every function [`MIN_STACK`] of them. An error comes with what
/// is then on the stack.
#[verifier::rlimit(30)]
pub fn decode_bytes(data: &[u8], limit: usize) -> (r: Result<
    Vec<LuaValue>,
    (DecodeError, Vec<LuaValue>),
>)
    requires
        limit >= MIN_STACK,
    ensures
        match values_at(data@, 0, Seq::empty(), limit as int) {
            Ok(vs) => r matches Ok(got) && view_list(got) == vs,
            Err((e, vs)) => r matches Err((got, left)) && got == e && view_list(left) == vs,
        },
{
    let mut values: Vec<LuaValue> = Vec::new();
    assert(view_list(values) =~= Seq::empty());
    let mut br = ReadBlock::new(data);
    let ghost want = values_at(data@, 0, Seq::empty(), limit as int);
    loop
        invariant
            br.wf(),
            br.buf@ == data@,
            br.error is None,
            values@.len() <= br.pos,
            values@.len() + 7 - values@.len() % 8 <= limit,
            want == values_at(data@, 0, Seq::empty(), limit as int),
            want == values_at(data@, br.pos as int, view_list(values), limit as int),
        decreases data@.len() - br.pos,
    {
        if values.len() % 8 == 7 && limit - values.len() < 8 {
            return Err((DecodeError::StackOverflow, values));
        }
        proof {
            lemma_value_progress(data@, br.pos as int, 0, limit - values@.len());
        }
        let ghost room = limit - values@.len();
        let ghost next = value_at(data@, br.pos as int, 0, room);
        match br.try_read_byte() {
            None => {
                return Ok(values);
            },
            Some(head) => {
                assert(next == body_at(data@, br.pos as int, head % 8, head / 8, 0, room));
                match push_value(&mut br, head % 8, head / 8, 0, limit - values.len()) {
                    Err(left) => {
                        return Err((br.error(), stacked(values, left)));
                    },
                    Ok(v) => {
                        let ghost before = values;
                        values.push(v);
                        proof {
                            lemma_list_push(before, values, v);
                        }
                    },
                }
            },
        }
    }
}

/// What a failed attempt at a value leaves fits into the room that it had.
pub proof fn lemma_left_fits(buf: Seq<u8>, pos: int, depth: int, room: int)
    ensures
        value_at(buf, pos, depth, room) matches Err(s) ==> s.left.len() == 0 || s.left.len()
            <= room,
    decreases buf.len() - pos, 0nat,
{
    if 0 <= pos < buf.len() && buf[pos] % 8 == TYPE_TABLE && depth <= MAX_DEPTH && room
        >= MIN_STACK {
        lemma_table_progress(buf, pos + 1, buf[pos] / 8, depth, room);
        if let Ok((n, p)) = size_at(buf, pos + 1, buf[pos] / 8) {
            lemma_items_left(buf, p, n, Seq::empty(), depth + 1, room - 1);
            lemma_items_progress(buf, p, n, Seq::empty(), depth + 1, room - 1);
            if let Ok((items, q)) = items_at(buf, p, n, Seq::empty(), depth + 1, room - 1) {
                lemma_pairs_left(
                    buf,
                    q,
                    Tab { array: items, ..Tab::empty() },
                    depth + 1,
                    room - 1,
                );
            }
        }
    }
}

proof fn lemma_items_left(
    buf: Seq<u8>,
    pos: int,
    n: nat,
    done: Seq<Val>,
    depth: int,
    room: int,
)
    requires
        room >= MIN_STACK - 1,
    ensures
        items_at(buf, pos, n, done, depth, room) matches Err(s) ==> s.left.len() <= room + 1,
    decreases buf.len() - pos, 1nat,
{
    if n > 0 {
        lemma_left_fits(buf, pos, depth, room);
        if let Ok((v, p)) = value_at(buf, pos, depth, room) {
            if pos < p <= buf.len() {
                lemma_items_left(buf, p, (n - 1) as nat, done.push(v), depth, room);
            }
        }
    }
}

proof fn lemma_pairs_left(buf: Seq<u8>, pos: int, t: Tab, depth: int, room: int)
    requires
        room >= MIN_STACK - 1,
    ensures
        pairs_at(buf, pos, t, depth, room) matches Err(s) ==> s.left.len() <= room + 1,
    decreases buf.len() - pos, 1nat,
{
    lemma_left_fits(buf, pos, depth, room);
    if let Ok((k, p)) = value_at(buf, pos, depth, room) {
        if pos < p <= buf.len() {
            lemma_left_fits(buf, p, depth, room - 1);
            if let Ok((v, q)) = value_at(buf, p, depth, room - 1) {
                if p < q <= buf.len() {
                    lemma_pairs_left(buf, q, t.set(k, v), depth, room);
                }
            }
        }
    }
}

} // verus!
