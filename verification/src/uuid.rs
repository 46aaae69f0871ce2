//! Ids: player ids and typed ids, each from a counter of its own.
//!
//! An id is a non-negative integer. A typed id has, from the top, its type in
//! ten bits, the server in sixteen and a sequence number in 37. A player id has
//! type zero: a channel in eight bits, the server in sixteen and a sequence
//! number in 24, so that everything from bit 48 on is clear.
//!
//! A counter holds the next sequence number. To survive a crash, periodic saves
//! report a counter with a margin added; at the start a random amount is added
//! to what was saved.
use vstd::prelude::*;
use vstd::string::*;

use crate::laux::{slot_integer, LuaStack};
use crate::random::random_between;
use crate::number::{bits64, integer64, signed64, unsigned64};
use crate::text::{decimal, push_u64};
use crate::value::{view_list, LuaValue, Val};

verus! {

pub const TYPE_MAX: i64 = 1023;

pub const SERVERID_MAX: i64 = 65535;

pub const SEQUENCE_MAX: i64 = 0x1f_ffff_ffff;

pub const UID_CHANNEL_MAX: i64 = 255;

pub const UID_SEQUENCE_MAX: i64 = 0xff_ffff;

/// The number of counters.
pub const TYPES: usize = 1024;

/// What a periodic save adds to a counter of typed ids.
pub const SEQUENCE_SAVE_MARGIN: i64 = 10_000_000;

/// What a periodic save adds to the counter of player ids.
pub const UID_SEQUENCE_SAVE_MARGIN: i64 = 100_000;

/// The least that is added to a saved counter at the start.
pub const SEQUENCE_INIT_JITTER_MIN: i64 = 1_000;

/// The most that is added to a saved counter at the start.
pub const SEQUENCE_INIT_JITTER_MAX: i64 = 10_000;

/// The last sequence number of a type.
pub open spec fn cap(typ: int) -> int {
    if typ == 0 {
        UID_SEQUENCE_MAX as int
    } else {
        SEQUENCE_MAX as int
    }
}

/// What a periodic save adds to the counter of a type.
pub open spec fn margin(typ: int) -> int {
    if typ == 0 {
        UID_SEQUENCE_SAVE_MARGIN as int
    } else {
        SEQUENCE_SAVE_MARGIN as int
    }
}

/// A number, or the largest integer if it is larger.
pub open spec fn saturated(n: int) -> int {
    if n > i64::MAX {
        i64::MAX as int
    } else {
        n
    }
}

/// A number, or the bound that it would pass.
pub open spec fn at_most(n: int, max: int) -> int {
    if n < max {
        n
    } else {
        max
    }
}

/// The counter that a saved one is resumed at.
pub open spec fn resumed(typ: int, stored: int, jitter: int) -> int {
    at_most(saturated(stored + jitter), cap(typ))
}

/// What a save reports of a counter.
pub open spec fn reported(typ: int, counter: int, periodic: bool) -> int {
    if periodic {
        at_most(saturated(counter + margin(typ)), cap(typ))
    } else {
        counter
    }
}

/// A player id.
pub open spec fn player_id(channel: i64, serverid: i64, sequence: i64) -> i64 {
    signed64(
        ((channel * 0x100_0000_0000) as u64 | (serverid * 0x100_0000) as u64 | unsigned64(
            sequence as int,
        ) as u64) as nat,
    ) as i64
}

/// A typed id.
pub open spec fn typed_id(typ: i64, serverid: i64, sequence: i64) -> i64 {
    signed64(
        ((typ * 0x20_0000_0000_0000) as u64 | (serverid * 0x20_0000_0000) as u64 | unsigned64(
            sequence as int,
        ) as u64) as nat,
    ) as i64
}

/// What is left of an id when its low 53 bits are dropped; zero for a player id.
pub open spec fn high_part(id: int) -> int {
    id / 0x20_0000_0000_0000
}

/// The type of an id.
pub open spec fn id_type(id: int) -> int {
    high_part(id) % 1024
}

/// The server of an id.
pub open spec fn id_server(id: int) -> int {
    if high_part(id) == 0 {
        (id / 0x100_0000) % 65536
    } else {
        (id / 0x20_0000_0000) % 65536
    }
}

/// The sequence number of an id.
pub open spec fn id_sequence(id: int) -> int {
    if high_part(id) == 0 {
        id % 0x100_0000
    } else {
        id % 0x20_0000_0000
    }
}

/// The channel of an id; zero for a typed one.
pub open spec fn id_channel(id: int) -> int {
    if high_part(id) == 0 {
        (id / 0x100_0000_0000) % 256
    } else {
        0
    }
}

/// Whether an integer is a player id with all its fields filled.
pub open spec fn is_player_id(id: int) -> bool {
    high_part(id) == 0 && id_sequence(id) != 0 && id_server(id) != 0 && id_channel(id) != 0
}

/// Why a call was refused: an argument is no integer, or the reason given.
#[derive(Debug, PartialEq)]
pub enum UuidError {
    /// The argument at this index, or an entry of the table, is no integer.
    BadArgument(i32),
    Message(String),
}

/// The counters and what goes into every id. A server of zero means that no
/// counter was seeded yet.
#[derive(Debug, PartialEq)]
pub struct UuidState {
    pub serverid: i64,
    pub channel: i64,
    pub sequence: Vec<i64>,
}

/// The refusal of an argument.
pub open spec fn refuses<T>(r: Result<T, UuidError>, text: Seq<char>) -> bool {
    r matches Err(UuidError::Message(m)) && m@ == text
}

/// The report that a value lies outside a range that ends at `max`.
fn out_of_limit(prefix: &str, max: i64) -> (r: UuidError)
    requires
        max >= 0,
    ensures
        r matches UuidError::Message(m) && m@ == prefix@ + decimal(max as int) + ")"@,
{
    let mut m = prefix.to_owned();
    push_u64(&mut m, max as u64);
    m.append(")");
    UuidError::Message(m)
}

/// The last sequence number of a type.
fn cap_of(typ: usize) -> (r: i64)
    ensures
        r == cap(typ as int),
{
    if typ == 0 {
        UID_SEQUENCE_MAX
    } else {
        SEQUENCE_MAX
    }
}

/// The counter that a saved one is resumed at.
pub fn resume(typ: usize, stored: i64, jitter: i64) -> (r: i64)
    requires
        0 <= jitter <= SEQUENCE_INIT_JITTER_MAX,
    ensures
        r == resumed(typ as int, stored as int, jitter as int),
{
    let sum: i64 = if stored > i64::MAX - jitter {
        i64::MAX
    } else {
        stored + jitter
    };
    let max = cap_of(typ);
    if sum < max {
        sum
    } else {
        max
    }
}

/// The sequence number that a counter hands out next, if it is not past the last.
pub open spec fn issued(counter: i64, max: i64) -> Option<i64> {
    if counter > max {
        None
    } else {
        Some(counter)
    }
}

/// A counter after a call.
pub open spec fn advanced(counter: i64, max: i64) -> i64 {
    if counter > max {
        counter
    } else {
        (counter + 1) as i64
    }
}

/// A counter after `n` calls.
pub open spec fn advanced_by(counter: i64, max: i64, n: nat) -> i64
    decreases n,
{
    if n == 0 {
        counter
    } else {
        advanced(advanced_by(counter, max, (n - 1) as nat), max)
    }
}

/// What `n` calls give, one after another.
pub open spec fn issues(counter: i64, max: i64, n: nat) -> Seq<Option<i64>> {
    Seq::new(n, |i: int| issued(advanced_by(counter, max, i as nat), max))
}

proof fn lemma_advanced_by(counter: i64, max: i64, n: nat)
    requires
        max < i64::MAX,
        counter <= max + 1,
    ensures
        advanced_by(counter, max, n) == at_most(counter + n, max + 1),
    decreases n,
{
    if n > 0 {
        lemma_advanced_by(counter, max, (n - 1) as nat);
    }
}

/// What any number of calls in a row hand out, whoever makes them: the numbers
/// from the counter up to the last, each once and in order, and nothing after
/// that. The counter ends behind the last number handed out and never passes the
/// place behind the last that there is.
pub proof fn law_calls_issue_every_number_once(counter: i64, max: i64, n: nat)
    requires
        max < i64::MAX,
        counter <= max + 1,
    ensures
        advanced_by(counter, max, n) == at_most(counter + n, max + 1),
        issues(counter, max, n).len() == n,
        forall|i: int|
            0 <= i < n ==> #[trigger] issues(counter, max, n)[i] == if counter + i <= max {
                Some((counter + i) as i64)
            } else {
                None
            },
        forall|v: i64|
            counter <= v <= at_most(counter + n - 1, max as int) <==> #[trigger] issues(
                counter,
                max,
                n,
            ).contains(Some(v)),
        forall|i: int, j: int|
            0 <= i < j < n && (#[trigger] issues(counter, max, n)[i]) is Some ==> issues(
                counter,
                max,
                n,
            )[i] != #[trigger] issues(counter, max, n)[j],
{
    lemma_advanced_by(counter, max, n);
    let all = issues(counter, max, n);
    assert forall|i: int| 0 <= i < n implies #[trigger] all[i] == if counter + i <= max {
        Some((counter + i) as i64)
    } else {
        None
    } by {
        lemma_advanced_by(counter, max, i as nat);
    }
    assert forall|v: i64| counter <= v <= at_most(counter + n - 1, max as int) implies #[trigger]
        all.contains(Some(v)) by {
        assert(all[v - counter] == Some(v));
    }
}

/// Hands out the next sequence number; after the last one the counter stays.
pub fn issue_next(slot: &mut i64, max: i64) -> (r: Option<i64>)
    requires
        max < i64::MAX,
    ensures
        r == issued(*old(slot), max),
        *final(slot) == advanced(*old(slot), max),
{
    let current = *slot;
    if current > max {
        return None;
    }
    *slot = current + 1;
    Some(current)
}

/// The stored counters in the third argument of an initialization, if it has
/// any.
pub open spec fn stored_counters(v: Option<Val>) -> Option<Seq<Val>> {
    match v {
        Some(Val::Table(t)) => if t.array.len() == 0 {
            None
        } else {
            Some(t.array)
        },
        _ => None,
    }
}

/// Counters that were resumed from stored ones, each with some jitter, up to a
/// place; the others are as before.
pub open spec fn resumed_upto(before: Seq<i64>, now: Seq<i64>, stored: Seq<Val>, n: int) -> bool {
    &&& now.len() == before.len()
    &&& forall|i: int|
        0 <= i < n && i < now.len() ==> resumed_from(#[trigger] now[i], i, stored[i])
    &&& forall|i: int| n <= i < now.len() ==> #[trigger] now[i] == before[i]
}

/// A counter that was resumed from a stored one with some jitter.
pub open spec fn resumed_from(counter: i64, typ: int, stored: Val) -> bool {
    &&& slot_integer(Some(stored)) is Some
    &&& exists|j: int|
        SEQUENCE_INIT_JITTER_MIN <= j <= SEQUENCE_INIT_JITTER_MAX && counter
            == #[trigger] resumed(typ, slot_integer(Some(stored))->0 as int, j)
}

impl UuidState {
    /// There is a counter for every type, and none is past the end.
    pub open spec fn wf(self) -> bool {
        &&& 0 <= self.serverid <= SERVERID_MAX
        &&& 0 <= self.channel <= UID_CHANNEL_MAX
        &&& self.sequence@.len() == TYPES
        &&& forall|i: int| 0 <= i < TYPES ==> #[trigger] self.sequence@[i] <= cap(i) + 1
    }

    /// No counter seeded.
    pub fn new() -> (r: UuidState)
        ensures
            r.wf(),
            r.serverid == 0,
            r.channel == 0,
            forall|i: int| 0 <= i < TYPES ==> #[trigger] r.sequence@[i] == 0,
    {
        UuidState { serverid: 0, channel: 0, sequence: filled_with(0) }
    }

    /// Seeds the counters: at one, or from those saved in the third argument,
    /// each moved on by a random amount. Until a stored counter turns out to be
    /// no integer, those before it are seeded.
    pub fn init(&mut self, lua: &LuaStack) -> (r: Result<(), UuidError>)
        requires
            old(self).wf(),
            lua.wf(),
        ensures
            final(self).wf(),
            match (slot_integer(lua.slot(1)), slot_integer(lua.slot(2))) {
                (None, _) => r == Err::<(), UuidError>(UuidError::BadArgument(1)) && *final(self)
                    == *old(self),
                (_, None) => r == Err::<(), UuidError>(UuidError::BadArgument(2)) && *final(self)
                    == *old(self),
                (Some(channel), Some(serverid)) => if !(0 < channel <= UID_CHANNEL_MAX) {
                    &&& refuses(
                        r,
                        "uuid.init: channel out of limit (1..="@ + decimal(
                            UID_CHANNEL_MAX as int,
                        ) + ")"@,
                    )
                    &&& *final(self) == *old(self)
                } else if !(0 < serverid <= SERVERID_MAX) {
                    &&& refuses(
                        r,
                        "uuid.init: serverid out of limit (1..="@ + decimal(SERVERID_MAX as int)
                            + ")"@,
                    )
                    &&& *final(self) == *old(self)
                } else {
                    match stored_counters(lua.slot(3)) {
                        None => {
                            &&& r is Ok
                            &&& final(self).channel == channel
                            &&& final(self).serverid == serverid
                            &&& forall|i: int|
                                0 <= i < TYPES ==> #[trigger] final(self).sequence@[i] == 1
                        },
                        Some(stored) => if stored.len() != TYPES {
                            &&& refuses(
                                r,
                                "uuid.init: sequence table size error, expected 0 or 1024, got "@
                                    + decimal(signed64(stored.len())),
                            )
                            &&& *final(self) == *old(self)
                        } else {
                            match r {
                                Ok(_) => {
                                    &&& final(self).channel == channel
                                    &&& final(self).serverid == serverid
                                    &&& resumed_upto(
                                        old(self).sequence@,
                                        final(self).sequence@,
                                        stored,
                                        TYPES as int,
                                    )
                                },
                                Err(e) => {
                                    &&& e == UuidError::BadArgument(-1i32)
                                    &&& final(self).channel == old(self).channel
                                    &&& final(self).serverid == old(self).serverid
                                    &&& exists|k: int|
                                        0 <= k < TYPES && slot_integer(
                                            Some(#[trigger] stored[k]),
                                        ) is None && resumed_upto(
                                            old(self).sequence@,
                                            final(self).sequence@,
                                            stored,
                                            k,
                                        )
                                },
                            }
                        },
                    }
                },
            },
    {
        let channel: i64 = match lua.get::<i64>(1) {
            Ok(n) => n,
            Err(_) => {
                return Err(UuidError::BadArgument(1));
            },
        };
        let serverid: i64 = match lua.get::<i64>(2) {
            Ok(n) => n,
            Err(_) => {
                return Err(UuidError::BadArgument(2));
            },
        };
        if !(channel > 0 && channel <= UID_CHANNEL_MAX) {
            return Err(out_of_limit("uuid.init: channel out of limit (1..=", UID_CHANNEL_MAX));
        }
        if !(serverid > 0 && serverid <= SERVERID_MAX) {
            return Err(out_of_limit("uuid.init: serverid out of limit (1..=", SERVERID_MAX));
        }
        let stored: Option<&Vec<LuaValue>> = match lua.at(3) {
            Some(LuaValue::Table(t)) => if t.array.len() == 0 {
                None
            } else {
                Some(&t.array)
            },
            _ => None,
        };
        match stored {
            None => {
                self.sequence = filled_with(1);
            },
            Some(values) => {
                if values.len() != TYPES {
                    let mut m =
                        "uuid.init: sequence table size error, expected 0 or 1024, got ".to_owned();
                    crate::text::push_i64(&mut m, integer64(values.len() as u64));
                    return Err(UuidError::Message(m));
                }
                self.restore(values)?;
            },
        }
        self.channel = channel;
        self.serverid = serverid;
        Ok(())
    }

    /// Resumes the counters from stored ones.
    fn restore(&mut self, values: &Vec<LuaValue>) -> (r: Result<(), UuidError>)
        requires
            old(self).wf(),
            values@.len() == TYPES,
        ensures
            final(self).wf(),
            final(self).channel == old(self).channel,
            final(self).serverid == old(self).serverid,
            match r {
                Ok(_) => resumed_upto(
                    old(self).sequence@,
                    final(self).sequence@,
                    view_list(*values),
                    TYPES as int,
                ),
                Err(e) => {
                    &&& e == UuidError::BadArgument(-1i32)
                    &&& exists|k: int|
                        0 <= k < TYPES && slot_integer(
                            Some(#[trigger] view_list(*values)[k]),
                        ) is None && resumed_upto(
                            old(self).sequence@,
                            final(self).sequence@,
                            view_list(*values),
                            k,
                        )
                },
            },
    {
        let ghost stored = view_list(*values);
        let mut i: usize = 0;
        while i < TYPES
            invariant
                i <= TYPES,
                values@.len() == TYPES,
                stored == view_list(*values),
                self.wf(),
                old(self).wf(),
                self.channel == old(self).channel,
                self.serverid == old(self).serverid,
                resumed_upto(old(self).sequence@, self.sequence@, stored, i as int),
            decreases TYPES - i,
        {
            let s: i64 = match integer_of(&values[i]) {
                Some(n) => n,
                None => {
                    assert(slot_integer(Some(stored[i as int])) is None);
                    return Err(UuidError::BadArgument(-1));
                },
            };
            let jitter = random_between(SEQUENCE_INIT_JITTER_MIN, SEQUENCE_INIT_JITTER_MAX);
            let start = resume(i, s, jitter);
            let ghost before = self.sequence@;
            self.sequence.set(i, start);
            proof {
                assert(start == resumed(i as int, s as int, jitter as int));
                assert(resumed_from(start, i as int, stored[i as int]));
                assert forall|k: int| 0 <= k < i + 1 && k < self.sequence@.len() implies
                    resumed_from(#[trigger] self.sequence@[k], k, stored[k]) by {
                    if k < i {
                        assert(self.sequence@[k] == before[k]);
                    }
                }
            }
            i = i + 1;
        }
        Ok(())
    }
}

/// The integer that the machine reads from a value.
fn integer_of(v: &LuaValue) -> (r: Option<i64>)
    ensures
        r == slot_integer(Some(v@)),
{
    match v {
        LuaValue::Integer(i) => Some(*i),
        LuaValue::Number(n) => crate::number::number_to_integer(n.bits),
        LuaValue::String(s) => s.integer,
        _ => None,
    }
}

/// Counters that all have one value.
fn filled_with(n: i64) -> (r: Vec<i64>)
    ensures
        r@.len() == TYPES,
        forall|i: int| 0 <= i < TYPES ==> #[trigger] r@[i] == n,
{
    let mut r: Vec<i64> = Vec::new();
    while r.len() < TYPES
        invariant
            r@.len() <= TYPES,
            forall|i: int| 0 <= i < r@.len() ==> #[trigger] r@[i] == n,
        decreases TYPES - r@.len(),
    {
        r.push(n);
    }
    r
}

/// An optional integer argument.
pub open spec fn integer_or(v: Option<Val>, default: i64) -> Option<i64> {
    match v {
        None => Some(default),
        Some(Val::Nil) => Some(default),
        _ => slot_integer(v),
    }
}

/// Reads an optional integer argument.
fn read_or(lua: &LuaStack, index: i32, default: i64) -> (r: Option<i64>)
    requires
        lua.wf(),
        index > 0,
    ensures
        r == integer_or(lua.slot(index as int), default),
{
    match lua.at(index) {
        None | Some(LuaValue::Nil) => Some(default),
        Some(v) => integer_of(v),
    }
}

/// Whether a slot holds a number.
pub open spec fn slot_is_number(v: Option<Val>) -> bool {
    v matches Some(x) && (x is Num || x is Int)
}

/// A player id.
fn make_player_id(channel: i64, serverid: i64, sequence: i64) -> (r: i64)
    requires
        0 <= channel <= UID_CHANNEL_MAX,
        0 <= serverid <= SERVERID_MAX,
    ensures
        r == player_id(channel, serverid, sequence),
{
    integer64(
        (channel as u64 * 0x100_0000_0000) | (serverid as u64 * 0x100_0000) | bits64(sequence),
    )
}

/// A typed id.
fn make_typed_id(typ: i64, serverid: i64, sequence: i64) -> (r: i64)
    requires
        0 <= typ <= TYPE_MAX,
        0 <= serverid <= SERVERID_MAX,
    ensures
        r == typed_id(typ, serverid, sequence),
{
    integer64(
        (typ as u64 * 0x20_0000_0000_0000) | (serverid as u64 * 0x20_0000_0000) | bits64(sequence),
    )
}

/// The counters after one of them moved on.
pub open spec fn moved_on(before: UuidState, now: UuidState, typ: int) -> bool {
    &&& now.serverid == before.serverid
    &&& now.channel == before.channel
    &&& now.sequence@ == before.sequence@.update(typ, (before.sequence@[typ] + 1) as i64)
}

impl UuidState {
    /// Issues the next id of a type: zero for a player id, others typed. A number
    /// as second argument is the sequence number of a typed id, in place of the
    /// counter's.
    pub fn next(&mut self, lua: &LuaStack) -> (r: Result<i64, UuidError>)
        requires
            old(self).wf(),
            lua.wf(),
        ensures
            final(self).wf(),
            r is Err ==> *final(self) == *old(self),
            if old(self).serverid == 0 || old(self).channel == 0 {
                refuses(r, "uuid.next: not init"@)
            } else {
                match integer_or(lua.slot(1), 0) {
                    None => r == Err::<i64, UuidError>(UuidError::BadArgument(1)),
                    Some(typ) => if !(0 <= typ <= TYPE_MAX) {
                        refuses(
                            r,
                            "uuid.next: type out of limit (0..="@ + decimal(TYPE_MAX as int)
                                + ")"@,
                        )
                    } else if typ == 0 {
                        if old(self).sequence@[0] > UID_SEQUENCE_MAX {
                            refuses(r, "uuid.next: player uid sequence out of limit"@)
                        } else {
                            &&& r == Ok::<i64, UuidError>(
                                player_id(
                                    old(self).channel,
                                    old(self).serverid,
                                    old(self).sequence@[0],
                                ),
                            )
                            &&& moved_on(*old(self), *final(self), 0)
                        }
                    } else if slot_is_number(lua.slot(2)) {
                        match slot_integer(lua.slot(2)) {
                            None => r == Err::<i64, UuidError>(UuidError::BadArgument(2)),
                            Some(n) => if !(0 <= n <= SEQUENCE_MAX) {
                                refuses(r, "uuid.next: sequence out of limit"@)
                            } else {
                                &&& r == Ok::<i64, UuidError>(
                                    typed_id(typ, old(self).serverid, n),
                                )
                                &&& *final(self) == *old(self)
                            },
                        }
                    } else if old(self).sequence@[typ as int] > SEQUENCE_MAX {
                        refuses(r, "uuid.next: sequence out of limit"@)
                    } else {
                        &&& r == Ok::<i64, UuidError>(
                            typed_id(
                                typ,
                                old(self).serverid,
                                old(self).sequence@[typ as int],
                            ),
                        )
                        &&& moved_on(*old(self), *final(self), typ as int)
                    },
                }
            },
    {
        if self.serverid == 0 || self.channel == 0 {
            return Err(UuidError::Message("uuid.next: not init".to_owned()));
        }
        let typ: i64 = match read_or(lua, 1, 0) {
            Some(n) => n,
            None => {
                return Err(UuidError::BadArgument(1));
            },
        };
        if typ < 0 || typ > TYPE_MAX {
            return Err(out_of_limit("uuid.next: type out of limit (0..=", TYPE_MAX));
        }
        if typ == 0 {
            match self.issue(0, UID_SEQUENCE_MAX) {
                Some(sequence) => Ok(make_player_id(self.channel, self.serverid, sequence)),
                None => Err(
                    UuidError::Message("uuid.next: player uid sequence out of limit".to_owned()),
                ),
            }
        } else {
            let explicit: Option<i64> = match lua.at(2) {
                Some(LuaValue::Number(_)) | Some(LuaValue::Integer(_)) => match lua.get::<i64>(2) {
                    Ok(n) => Some(n),
                    Err(_) => {
                        return Err(UuidError::BadArgument(2));
                    },
                },
                _ => None,
            };
            match explicit {
                Some(n) => {
                    if n < 0 || n > SEQUENCE_MAX {
                        return Err(
                            UuidError::Message("uuid.next: sequence out of limit".to_owned()),
                        );
                    }
                    Ok(make_typed_id(typ, self.serverid, n))
                },
                None => match self.issue(typ as usize, SEQUENCE_MAX) {
                    Some(sequence) => Ok(make_typed_id(typ, self.serverid, sequence)),
                    None => Err(UuidError::Message("uuid.next: sequence out of limit".to_owned())),
                },
            }
        }
    }

    /// Takes the next sequence number from a counter.
    fn issue(&mut self, typ: usize, max: i64) -> (r: Option<i64>)
        requires
            old(self).wf(),
            typ < TYPES,
            max == cap(typ as int),
        ensures
            final(self).wf(),
            if old(self).sequence@[typ as int] > max {
                r is None && *final(self) == *old(self)
            } else {
                r == Some(old(self).sequence@[typ as int]) && moved_on(
                    *old(self),
                    *final(self),
                    typ as int,
                )
            },
    {
        let mut slot = self.sequence[typ];
        let r = issue_next(&mut slot, max);
        if r.is_some() {
            self.sequence.set(typ, slot);
        }
        r
    }

    /// What a save needs: the report of every counter, how full the fullest one
    /// is in parts of `2^37`, and the server.
    pub fn dump(&self, periodic: bool) -> (r: (Vec<LuaValue>, i64, i64))
        requires
            self.wf(),
        ensures
            view_list(r.0).len() == TYPES,
            forall|i: int|
                0 <= i < TYPES ==> #[trigger] view_list(r.0)[i] == Val::Int(
                    reported(i, self.sequence@[i] as int, periodic) as i64,
                ),
            r.1 == fullest(self.sequence@, periodic, TYPES as int),
            r.2 == self.serverid,
    {
        let mut out: Vec<LuaValue> = Vec::new();
        let mut full: i64 = 0;
        let mut i: usize = 0;
        while i < TYPES
            invariant
                self.wf(),
                i <= TYPES,
                view_list(out).len() == i,
                forall|k: int|
                    0 <= k < i ==> #[trigger] view_list(out)[k] == Val::Int(
                        reported(k, self.sequence@[k] as int, periodic) as i64,
                    ),
                full == fullest(self.sequence@, periodic, i as int),
                0 <= full <= 0x20_0000_0000,
            decreases TYPES - i,
        {
            let counter = self.sequence[i];
            let max = cap_of(i);
            let margin: i64 = if i == 0 {
                UID_SEQUENCE_SAVE_MARGIN
            } else {
                SEQUENCE_SAVE_MARGIN
            };
            let value: i64 = if periodic {
                if counter > max - margin {
                    max
                } else {
                    counter + margin
                }
            } else {
                counter
            };
            assert(value == reported(i as int, counter as int, periodic));
            let part: i64 = if value <= 0 {
                0
            } else if i == 0 {
                value * 0x2000
            } else {
                value
            };
            if part > full {
                full = part;
            }
            let ghost before = out;
            out.push(LuaValue::Integer(value));
            proof {
                crate::value::lemma_list_push(before, out, LuaValue::Integer(value));
            }
            i = i + 1;
        }
        (out, full, self.serverid)
    }
}

/// How full a counter is, in parts of `2^37`. The counter of player ids holds
/// `2^24` numbers, every other one `2^37`.
pub open spec fn fill(typ: int, value: int) -> int {
    if value <= 0 {
        0
    } else if typ == 0 {
        value * 0x2000
    } else {
        value
    }
}

/// How full the fullest of the first `n` counters is.
pub open spec fn fullest(counters: Seq<i64>, periodic: bool, n: int) -> int
    decreases n,
{
    if n <= 0 {
        0
    } else {
        let before = fullest(counters, periodic, n - 1);
        let this = fill(n - 1, reported(n - 1, counters[n - 1] as int, periodic));
        if this > before {
            this
        } else {
            before
        }
    }
}

/// The fields of an integer are those of its bits.
proof fn lemma_bits(v: i64)
    ensures
        ({
            let u = unsigned64(v as int) as int;
            &&& (u / 0x20_0000_0000_0000) % 1024 == (v as int / 0x20_0000_0000_0000) % 1024
            &&& (u / 0x20_0000_0000) % 65536 == (v as int / 0x20_0000_0000) % 65536
            &&& u % 0x20_0000_0000 == v as int % 0x20_0000_0000
        }),
        high_part(v as int) == 0 <==> 0 <= v < 0x20_0000_0000_0000,
{
    let x = v as int;
    if v < 0 {
        vstd::arithmetic::div_mod::lemma_hoist_over_denominator(x, 2048, 0x20_0000_0000_0000);
        vstd::arithmetic::div_mod::lemma_hoist_over_denominator(x, 0x800_0000, 0x20_0000_0000);
        vstd::arithmetic::div_mod::lemma_mod_multiples_vanish(0x800_0000, x, 0x20_0000_0000);
        vstd::arithmetic::div_mod::lemma_mod_multiples_vanish(
            2,
            x / 0x20_0000_0000_0000,
            1024,
        );
        vstd::arithmetic::div_mod::lemma_mod_multiples_vanish(
            2048,
            x / 0x20_0000_0000,
            65536,
        );
    }
}

/// The parts of an id: type, server, sequence number and channel.
pub fn split(value: i64) -> (r: (i64, i64, i64, i64))
    ensures
        r.0 == (if high_part(value as int) == 0 {
            0
        } else {
            id_type(value as int)
        }),
        r.1 == id_server(value as int),
        r.2 == id_sequence(value as int),
        r.3 == id_channel(value as int),
{
    let u: u64 = bits64(value);
    proof {
        lemma_bits(value);
    }
    if 0 <= value && value < 0x20_0000_0000_0000 {
        (
            0,
            ((u / 0x100_0000) % 65536) as i64,
            (u % 0x100_0000) as i64,
            ((u / 0x100_0000_0000) % 256) as i64,
        )
    } else {
        (
            ((u / 0x20_0000_0000_0000) % 1024) as i64,
            ((u / 0x20_0000_0000) % 65536) as i64,
            (u % 0x20_0000_0000) as i64,
            0,
        )
    }
}

/// The type of a typed id.
pub fn type_of(uuid: i64) -> (r: Result<i64, UuidError>)
    ensures
        if high_part(uuid as int) == 0 {
            refuses(r, "uuid.type: attempt to get type from a non-uuid value"@)
        } else {
            r matches Ok(t) && t == id_type(uuid as int)
        },
{
    if 0 <= uuid && uuid < 0x20_0000_0000_0000 {
        return Err(
            UuidError::Message("uuid.type: attempt to get type from a non-uuid value".to_owned()),
        );
    }
    Ok(split(uuid).0)
}

/// Whether an integer is a player id with all its fields filled.
pub fn is_uid(uuid: i64) -> (r: bool)
    ensures
        r == is_player_id(uuid as int),
{
    let (_, serverid, sequence, channel) = split(uuid);
    0 <= uuid && uuid < 0x20_0000_0000_0000 && sequence != 0 && serverid != 0 && channel != 0
}

/// The server of an id.
pub fn serverid(uuid: i64) -> (r: i64)
    ensures
        r == id_server(uuid as int),
{
    split(uuid).1
}

/// Fields that do not overlap add up.
proof fn lemma_fields_add(a: u64, b: u64, n: u64, low: u64, mid: u64)
    requires
        n < low,
        b < mid,
        b % low == 0,
        a % mid == 0,
        low == 0x100_0000 && mid == 0x100_0000_0000 || low == 0x20_0000_0000 && mid
            == 0x20_0000_0000_0000,
        a + b + n <= u64::MAX,
    ensures
        a | b | n == a + b + n,
{
    if low == 0x100_0000 {
        assert((a | b | n) == (a + b + n) as u64) by (bit_vector)
            requires
                n < 0x100_0000u64,
                b < 0x100_0000_0000u64,
                b % 0x100_0000u64 == 0,
                a % 0x100_0000_0000u64 == 0,
        ;
    } else {
        assert((a | b | n) == (a + b + n) as u64) by (bit_vector)
            requires
                n < 0x20_0000_0000u64,
                b < 0x20_0000_0000_0000u64,
                b % 0x20_0000_0000u64 == 0,
                a % 0x20_0000_0000_0000u64 == 0,
        ;
    }
}

/// A player id has the parts it was made of, is not negative, and is told apart
/// from a typed id by its high bits.
pub proof fn law_player_ids_split(channel: i64, serverid: i64, sequence: i64)
    requires
        0 <= channel <= UID_CHANNEL_MAX,
        0 <= serverid <= SERVERID_MAX,
        0 <= sequence <= UID_SEQUENCE_MAX,
    ensures
        ({
            let id = player_id(channel, serverid, sequence) as int;
            &&& id == channel * 0x100_0000_0000 + serverid * 0x100_0000 + sequence
            &&& 0 <= id < 0x1_0000_0000_0000
            &&& high_part(id) == 0
            &&& id_server(id) == serverid
            &&& id_sequence(id) == sequence
            &&& id_channel(id) == channel
            &&& is_player_id(id) <==> channel != 0 && serverid != 0 && sequence != 0
        }),
{
    lemma_fields_add(
        (channel * 0x100_0000_0000) as u64,
        (serverid * 0x100_0000) as u64,
        sequence as u64,
        0x100_0000,
        0x100_0000_0000,
    );
}

/// A typed id has the parts it was made of, is not negative, and is no player id.
pub proof fn law_typed_ids_split(typ: i64, serverid: i64, sequence: i64)
    requires
        1 <= typ <= TYPE_MAX,
        0 <= serverid <= SERVERID_MAX,
        0 <= sequence <= SEQUENCE_MAX,
    ensures
        ({
            let id = typed_id(typ, serverid, sequence) as int;
            &&& id == typ * 0x20_0000_0000_0000 + serverid * 0x20_0000_0000 + sequence
            &&& 0 <= id
            &&& high_part(id) != 0
            &&& id_type(id) == typ
            &&& id_server(id) == serverid
            &&& id_sequence(id) == sequence
            &&& id_channel(id) == 0
            &&& !is_player_id(id)
        }),
{
    lemma_fields_add(
        (typ * 0x20_0000_0000_0000) as u64,
        (serverid * 0x20_0000_0000) as u64,
        sequence as u64,
        0x20_0000_0000,
        0x20_0000_0000_0000,
    );
}

/// Different parts give different ids: neither two player ids, nor two typed ids,
/// nor one of each are ever equal by accident.
pub proof fn law_ids_are_distinct(
    channel1: i64,
    type1: i64,
    server1: i64,
    seq1: i64,
    channel2: i64,
    type2: i64,
    server2: i64,
    seq2: i64,
)
    requires
        0 <= channel1 <= UID_CHANNEL_MAX,
        0 <= channel2 <= UID_CHANNEL_MAX,
        0 <= server1 <= SERVERID_MAX,
        0 <= server2 <= SERVERID_MAX,
        1 <= type1 <= TYPE_MAX,
        1 <= type2 <= TYPE_MAX,
        0 <= seq1 <= SEQUENCE_MAX,
        0 <= seq2 <= SEQUENCE_MAX,
    ensures
        seq1 <= UID_SEQUENCE_MAX ==> player_id(channel1, server1, seq1) != typed_id(
            type2,
            server2,
            seq2,
        ),
        typed_id(type1, server1, seq1) == typed_id(type2, server2, seq2) ==> type1 == type2
            && server1 == server2 && seq1 == seq2,
        seq1 <= UID_SEQUENCE_MAX && seq2 <= UID_SEQUENCE_MAX && player_id(channel1, server1, seq1)
            == player_id(channel2, server2, seq2) ==> channel1 == channel2 && server1 == server2
            && seq1 == seq2,
{
    law_typed_ids_split(type1, server1, seq1);
    law_typed_ids_split(type2, server2, seq2);
    if seq1 <= UID_SEQUENCE_MAX {
        law_player_ids_split(channel1, server1, seq1);
    }
    if seq2 <= UID_SEQUENCE_MAX {
        law_player_ids_split(channel2, server2, seq2);
    }
}

/// A restart issues no id twice. Whatever was issued up to the crash lies below
/// the counter then; as long as that had moved by no more than the margin since
/// the save, and the numbers had not run out, the counter is resumed at or above
/// it. The same holds after a clean save, since which nothing was issued.
pub proof fn law_restart_reissues_nothing(
    typ: int,
    saved: int,
    crashed: int,
    periodic: bool,
    jitter: int,
)
    requires
        0 <= typ <= TYPE_MAX,
        i64::MIN <= saved <= crashed <= cap(typ),
        crashed <= saved + if periodic {
            margin(typ)
        } else {
            0
        },
        SEQUENCE_INIT_JITTER_MIN <= jitter <= SEQUENCE_INIT_JITTER_MAX,
    ensures
        crashed <= resumed(typ, reported(typ, saved, periodic), jitter) <= cap(typ),
{
}

/// How full a counter is lies between nothing and the whole, even when it has
/// run out.
pub proof fn law_fill_is_a_fraction(typ: int, counter: int, periodic: bool)
    requires
        0 <= typ <= TYPE_MAX,
        counter <= cap(typ) + 1,
    ensures
        0 <= fill(typ, reported(typ, counter, periodic)) <= 0x20_0000_0000,
{
}

/// Later ids of a type are larger: a counter only moves on, so no two calls give
/// the same id.
pub proof fn law_ids_increase(typ: i64, channel: i64, serverid: i64, earlier: i64, later: i64)
    requires
        0 <= typ <= TYPE_MAX,
        0 <= channel <= UID_CHANNEL_MAX,
        0 <= serverid <= SERVERID_MAX,
        0 <= earlier < later <= cap(typ as int),
    ensures
        typ == 0 ==> player_id(channel, serverid, earlier) < player_id(channel, serverid, later),
        typ > 0 ==> typed_id(typ, serverid, earlier) < typed_id(typ, serverid, later),
{
    if typ == 0 {
        law_player_ids_split(channel, serverid, earlier);
        law_player_ids_split(channel, serverid, later);
    } else {
        law_typed_ids_split(typ, serverid, earlier);
        law_typed_ids_split(typ, serverid, later);
    }
}

} // verus!
