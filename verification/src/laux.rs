//! The Lua stack that a callback works on.
//!
//! Slots are counted from one at the bottom; a negative index counts from the
//! top. Pseudo-indices name things that the machine keeps elsewhere: they pass
//! through index arithmetic unchanged and have no slot.
use vstd::prelude::*;
use vstd::string::*;
use vstd::utf8::*;

use crate::number::{bits64, float_integer, integer64, number_to_integer, signed64, unsigned64};
use crate::printing::{print_magnitude, printed_magnitude};
use crate::pack::in_sequence;
use crate::text::{
    decimal, from_utf8, from_utf8_lossy, lossy_text, magnitude, numeral, push_pointer, push_signed,
};
use crate::value::{
    copy_bytes, kind_name, kind_of, lemma_list_push, view_list, LuaType, LuaValue, Tab, TableValue,
    Val,
};

verus! {

/// The index of the registry, the highest pseudo-index.
pub const LUA_REGISTRYINDEX: i32 = -1_001_000;

/// No stack has more slots than this.
pub const LUAI_MAXSTACK: usize = 1_000_000;

pub const LUA_TNONE: i32 = -1;

pub const LUA_TNIL: i32 = 0;

pub const LUA_TBOOLEAN: i32 = 1;

pub const LUA_TLIGHTUSERDATA: i32 = 2;

pub const LUA_TNUMBER: i32 = 3;

pub const LUA_TSTRING: i32 = 4;

pub const LUA_TTABLE: i32 = 5;

pub const LUA_TFUNCTION: i32 = 6;

pub const LUA_TUSERDATA: i32 = 7;

pub const LUA_TTHREAD: i32 = 8;

/// The address of a machine.
#[derive(Clone, Copy, Debug, PartialEq, Eq, Structural)]
pub struct LuaState(pub u64);

/// The nil value.
#[derive(Clone, Copy, Debug, PartialEq, Eq, Structural)]
pub struct LuaNil;

/// The address of a coroutine.
#[derive(Clone, Copy, Debug, PartialEq, Eq, Structural)]
pub struct LuaThread(pub u64);

impl LuaThread {
    pub fn new(l: u64) -> (r: Self)
        ensures
            r.0 == l,
    {
        LuaThread(l)
    }
}

/// A machine that is owned as a whole.
#[derive(Debug, PartialEq, Eq, Structural)]
pub struct LuaGlobalState(pub LuaState);

impl LuaGlobalState {
    pub fn new(l: LuaState) -> (r: Self)
        ensures
            r.0 == l,
    {
        LuaGlobalState(l)
    }
}

/// A callback without results.
pub fn lua_null_function(_lua: &mut LuaStack) -> (r: i32)
    ensures
        r == 0,
        *final(_lua) == *old(_lua),
{
    0
}

/// The machine's code of a kind; integers and floats share one.
pub open spec fn type_code(t: LuaType) -> i32 {
    match t {
        LuaType::Absent => LUA_TNONE,
        LuaType::Nil => LUA_TNIL,
        LuaType::Boolean => LUA_TBOOLEAN,
        LuaType::LightUserData => LUA_TLIGHTUSERDATA,
        LuaType::Number | LuaType::Integer => LUA_TNUMBER,
        LuaType::String => LUA_TSTRING,
        LuaType::Table => LUA_TTABLE,
        LuaType::Function => LUA_TFUNCTION,
        LuaType::UserData => LUA_TUSERDATA,
        LuaType::Thread => LUA_TTHREAD,
    }
}

/// The machine's name for a type code.
pub open spec fn code_name(t: int) -> Seq<char> {
    if t == LUA_TNONE {
        "no value"@
    } else if t == LUA_TNIL {
        "nil"@
    } else if t == LUA_TBOOLEAN {
        "boolean"@
    } else if t == LUA_TLIGHTUSERDATA || t == LUA_TUSERDATA {
        "userdata"@
    } else if t == LUA_TNUMBER {
        "number"@
    } else if t == LUA_TSTRING {
        "string"@
    } else if t == LUA_TTABLE {
        "table"@
    } else if t == LUA_TFUNCTION {
        "function"@
    } else {
        "thread"@
    }
}

/// The machine's name for a type code.
pub fn lua_typename(t: i32) -> (r: &'static str)
    requires
        LUA_TNONE <= t <= LUA_TTHREAD,
    ensures
        r@ == code_name(t as int),
{
    match t {
        LUA_TNONE => "no value",
        LUA_TNIL => "nil",
        LUA_TBOOLEAN => "boolean",
        LUA_TLIGHTUSERDATA | LUA_TUSERDATA => "userdata",
        LUA_TNUMBER => "number",
        LUA_TSTRING => "string",
        LUA_TTABLE => "table",
        LUA_TFUNCTION => "function",
        _ => "thread",
    }
}

/// The machine's code of a kind.
fn code_of(t: LuaType) -> (r: i32)
    ensures
        r == type_code(t),
{
    match t {
        LuaType::Absent => LUA_TNONE,
        LuaType::Nil => LUA_TNIL,
        LuaType::Boolean => LUA_TBOOLEAN,
        LuaType::LightUserData => LUA_TLIGHTUSERDATA,
        LuaType::Number | LuaType::Integer => LUA_TNUMBER,
        LuaType::String => LUA_TSTRING,
        LuaType::Table => LUA_TTABLE,
        LuaType::Function => LUA_TFUNCTION,
        LuaType::UserData => LUA_TUSERDATA,
        LuaType::Thread => LUA_TTHREAD,
    }
}

/// The report of a value of the wrong type.
fn type_mismatch(actual: i32, expected: &str) -> (r: String)
    requires
        LUA_TNONE <= actual <= LUA_TTHREAD,
    ensures
        r@ == expected@ + " expected, got "@ + code_name(actual as int),
{
    let mut s = expected.to_owned();
    s.append(" expected, got ");
    s.append(lua_typename(actual));
    s
}

/// The stack of one callback: the machine's address, the slots in use and how
/// many there may be.
#[derive(Debug, PartialEq)]
pub struct LuaStack {
    pub state: LuaState,
    pub slots: Vec<LuaValue>,
    pub limit: usize,
}

/// The kind of a slot that may be empty.
pub open spec fn slot_kind(v: Option<Val>) -> LuaType {
    match v {
        Some(v) => kind_of(v),
        None => LuaType::Absent,
    }
}

/// Whether a slot is empty or holds nil.
pub open spec fn none_or_nil(v: Option<Val>) -> bool {
    v matches Some(x) ==> x is Nil
}

/// The integer that the machine reads from a slot: an integer, a float that
/// equals one, or a string that spells one of these.
pub open spec fn slot_integer(v: Option<Val>) -> Option<i64> {
    match v {
        Some(Val::Int(i)) => Some(i),
        Some(Val::Num(bits, _)) => float_integer(bits),
        Some(Val::Str(_, n)) => n,
        _ => None,
    }
}

/// The length of a table that is a sequence and nothing else: every key is an
/// integer from one to the raw length, and there are as many keys as that.
/// Anything else counts as zero.
pub open spec fn strict_len(t: Tab) -> nat {
    if t.array.len() > 0 && all_in_sequence(t.hash, t.array.len()) && filled(t.array)
        + t.hash.len() == t.array.len() {
        t.array.len()
    } else {
        0
    }
}

/// How many elements are not nil.
pub open spec fn filled(array: Seq<Val>) -> nat
    decreases array.len(),
{
    if array.len() == 0 {
        0
    } else if array.last() is Nil {
        filled(array.drop_last())
    } else {
        filled(array.drop_last()) + 1
    }
}

/// Whether all keys are integers from one to `n`.
pub open spec fn all_in_sequence(es: Seq<(Val, Val)>, n: nat) -> bool {
    forall|i: int| 0 <= i < es.len() ==> in_sequence(#[trigger] es[i].0, n)
}

impl View for LuaStack {
    type V = Seq<Val>;

    open spec fn view(&self) -> Seq<Val> {
        view_list(self.slots)
    }
}

impl LuaStack {
    /// The slots in use are within the limit.
    pub open spec fn wf(self) -> bool {
        self@.len() <= self.limit <= LUAI_MAXSTACK
    }

    /// The place of an index, counted from the bottom.
    pub open spec fn abs(self, index: int) -> int {
        if index > 0 || index <= LUA_REGISTRYINDEX {
            index
        } else {
            self@.len() + index + 1
        }
    }

    /// The indices at which a value may be asked for: any place above the
    /// bottom, used or not, and the used places counted from the top.
    pub open spec fn acceptable(self, index: int) -> bool {
        index > 0 || -self@.len() <= index < 0
    }

    /// The value at an index, if the place is in use.
    pub open spec fn slot(self, index: int) -> Option<Val> {
        if 1 <= self.abs(index) <= self@.len() {
            Some(self@[self.abs(index) - 1])
        } else {
            None
        }
    }

    /// The slots above those in use.
    pub open spec fn room(self) -> int {
        self.limit - self@.len()
    }

    /// The same machine with other values on the stack.
    pub open spec fn same_machine(self, other: LuaStack) -> bool {
        self.state == other.state && self.limit == other.limit
    }

    /// A stack of values.
    pub fn new(state: LuaState, slots: Vec<LuaValue>, limit: usize) -> (r: Self)
        requires
            slots@.len() <= limit <= LUAI_MAXSTACK,
        ensures
            r.wf(),
            r.state == state,
            r.limit == limit,
            r@ == view_list(slots),
    {
        LuaStack { state, slots, limit }
    }

    pub fn state(&self) -> (r: LuaState)
        ensures
            r == self.state,
    {
        self.state
    }

    pub fn as_ptr(&self) -> (r: u64)
        ensures
            r == self.state.0,
    {
        self.state.0
    }

    /// The number of slots in use.
    pub fn top(&self) -> (r: i32)
        requires
            self.wf(),
        ensures
            r == self@.len(),
    {
        self.slots.len() as i32
    }

    /// How many slots are free.
    pub fn free(&self) -> (r: usize)
        requires
            self.wf(),
        ensures
            r == self.room(),
    {
        self.limit - self.slots.len()
    }

    /// The place of an index, counted from the bottom.
    pub fn abs_index(&self, index: i32) -> (r: i32)
        requires
            self.wf(),
        ensures
            r == self.abs(index as int),
    {
        if index > 0 || index <= LUA_REGISTRYINDEX {
            index
        } else {
            self.top() + index + 1
        }
    }

    /// The value at an index, if the place is in use.
    pub fn at(&self, index: i32) -> (r: Option<&LuaValue>)
        requires
            self.wf(),
            self.acceptable(index as int),
        ensures
            match r {
                Some(v) => self.slot(index as int) == Some(v@),
                None => self.slot(index as int) is None,
            },
    {
        let place = self.abs_index(index);
        if place >= 1 && place as usize <= self.slots.len() {
            Some(&self.slots[place as usize - 1])
        } else {
            None
        }
    }

    /// The value at an index, with its kind.
    pub fn value(&self, index: i32) -> (r: LuaStackValue<'_>)
        requires
            self.wf(),
            self.acceptable(index as int),
        ensures
            r.wf(),
            *r.context == *self,
            r.index == self.abs(index as int),
            r.kind == slot_kind(self.slot(index as int)),
    {
        LuaStackValue { context: self, index: self.abs_index(index), kind: lua_type(self, index) }
    }

    /// The length of the table at an index if that is a sequence and nothing
    /// else; otherwise zero.
    pub fn array_len(&self, index: i32) -> (r: usize)
        requires
            self.wf(),
            self.acceptable(index as int),
        ensures
            r == match self.slot(index as int) {
                Some(Val::Table(t)) => strict_len(t),
                _ => 0,
            },
    {
        match self.at(index) {
            Some(LuaValue::Table(t)) => lua_array_size(t),
            _ => 0,
        }
    }

    /// The machine's raw length of a table, string or full userdata; zero for
    /// values that have none.
    pub fn raw_len(&self, index: i32) -> (r: usize)
        requires
            self.wf(),
            self.acceptable(index as int),
        ensures
            r == match self.slot(index as int) {
                Some(Val::Table(t)) => t.array.len(),
                Some(Val::Str(b, _)) => b.len(),
                Some(Val::User(_, n)) => n as nat,
                _ => 0,
            },
    {
        match self.at(index) {
            Some(LuaValue::Table(t)) => t.raw_len(),
            Some(LuaValue::String(s)) => s.bytes.len(),
            Some(LuaValue::UserData(_, n)) => *n,
            _ => 0,
        }
    }

    /// The bytes of a string; other kinds have none.
    pub fn value_bytes_append_only(&self, index: i32) -> (r: Option<&[u8]>)
        requires
            self.wf(),
            self.acceptable(index as int),
        ensures
            match self.slot(index as int) {
                Some(Val::Str(b, _)) => r matches Some(s) && s@ == b,
                _ => r is None,
            },
    {
        self.value(index).as_bytes()
    }

    /// Whether a value is there and true: missing and nil give `None`, only
    /// `false` gives `Some(false)`.
    pub fn opt_truthy(&self, index: i32) -> (r: Option<bool>)
        requires
            self.wf(),
            self.acceptable(index as int),
        ensures
            r == if none_or_nil(self.slot(index as int)) {
                None
            } else {
                Some(self.slot(index as int) != Some(Val::Bool(false)))
            },
    {
        match self.at(index) {
            None | Some(LuaValue::Nil) => None,
            Some(LuaValue::Boolean(b)) => Some(*b),
            _ => Some(true),
        }
    }

    /// Sets how many slots are in use; new ones hold nil. A negative number
    /// counts from the top.
    pub fn set_top(&mut self, top: i32)
        requires
            old(self).wf(),
            top <= old(self).limit,
            top < 0 ==> -old(self)@.len() - 1 <= top,
        ensures
            final(self).wf(),
            final(self).same_machine(*old(self)),
            final(self)@ == resized(
                old(self)@,
                if top < 0 {
                    old(self)@.len() + top + 1
                } else {
                    top as int
                },
            ),
    {
        let want: usize = if top < 0 {
            (self.top() + top + 1) as usize
        } else {
            top as usize
        };
        let ghost start = self@;
        if want <= self.slots.len() {
            self.slots.truncate(want);
            assert(self@ =~= resized(start, want as int));
        } else {
            while self.slots.len() < want
                invariant
                    start.len() <= self@.len() <= want <= self.limit <= LUAI_MAXSTACK,
                    self.state == old(self).state,
                    self.limit == old(self).limit,
                    self@ =~= resized(start, self@.len() as int),
                decreases want - self@.len(),
            {
                let ghost before = self.slots;
                self.slots.push(LuaValue::Nil);
                proof {
                    lemma_list_push(before, self.slots, LuaValue::Nil);
                }
            }
        }
    }

    /// Drops values from the top.
    pub fn pop(&mut self, count: i32)
        requires
            old(self).wf(),
            0 <= count <= old(self)@.len(),
        ensures
            final(self).wf(),
            final(self).same_machine(*old(self)),
            final(self)@ == old(self)@.take(old(self)@.len() - count),
    {
        self.slots.truncate(self.slots.len() - count as usize);
        assert(self@ =~= old(self)@.take(old(self)@.len() - count));
    }

    /// Puts a value on top.
    pub fn push_value(&mut self, v: LuaValue)
        requires
            old(self).wf(),
            old(self).room() >= 1,
        ensures
            final(self).wf(),
            final(self).same_machine(*old(self)),
            final(self)@ == old(self)@.push(v@),
    {
        self.slots.push(v);
        proof {
            lemma_list_push(old(self).slots, self.slots, v);
        }
    }
}

/// A stack with `n` slots: cut off, or filled up with nil.
pub open spec fn resized(s: Seq<Val>, n: int) -> Seq<Val> {
    Seq::new(
        n as nat,
        |i: int|
            if i < s.len() {
                s[i]
            } else {
                Val::Nil
            },
    )
}

/// The strict length of a table.
pub fn lua_array_size(t: &TableValue) -> (r: usize)
    ensures
        r == strict_len(t@),
{
    let len = t.raw_len();
    if len == 0 {
        return 0;
    }
    let mut count: usize = 0;
    let mut i: usize = 0;
    let ghost a = t@.array;
    assert(a.take(0) =~= Seq::empty());
    while i < len
        invariant
            len == a.len(),
            a == t@.array,
            i <= len,
            count == filled(a.take(i as int)),
            count <= i,
        decreases len - i,
    {
        assert(a.take(i + 1).drop_last() =~= a.take(i as int));
        if !t.array[i].is_nil() {
            count = count + 1;
        }
        i = i + 1;
    }
    assert(a.take(len as int) =~= a);
    let ghost es = t@.hash;
    let mut j: usize = 0;
    while j < t.hash.len()
        invariant
            len == a.len(),
            a == t@.array,
            es == t@.hash,
            j <= es.len(),
            filled(a) <= len,
            count <= len,
            all_in_sequence(es.take(j as int), a.len()),
            count == filled(a) + j,
        decreases es.len() - j,
    {
        let ghost key = es[j as int].0;
        let valid: bool = match &t.hash[j].0 {
            LuaValue::Integer(k) => *k > 0 && *k as u64 <= len as u64,
            _ => false,
        };
        assert(valid == in_sequence(key, a.len()));
        if !valid {
            return 0;
        }
        if count == len {
            return 0;
        }
        count = count + 1;
        assert forall|x: int| 0 <= x < j + 1 implies in_sequence(
            #[trigger] es.take(j + 1)[x].0,
            a.len(),
        ) by {
            if x < j {
                assert(es.take(j as int)[x] == es[x]);
            }
        }
        j = j + 1;
    }
    assert(es.take(j as int) =~= es);
    if count == len {
        len
    } else {
        0
    }
}

/// The kind of the value at an index.
pub fn lua_type(lua: &LuaStack, index: i32) -> (r: LuaType)
    requires
        lua.wf(),
        lua.acceptable(index as int),
    ensures
        r == slot_kind(lua.slot(index as int)),
{
    match lua.at(index) {
        Some(v) => v.kind(),
        None => LuaType::Absent,
    }
}

/// Checks that the value at an index has a type.
pub fn lua_checktype(lua: &LuaStack, index: i32, ltype: i32) -> (r: Result<(), String>)
    requires
        lua.wf(),
        lua.acceptable(index as int),
        LUA_TNONE <= ltype <= LUA_TTHREAD,
    ensures
        ({
            let actual = type_code(slot_kind(lua.slot(index as int)));
            if actual == ltype {
                r is Ok
            } else {
                r matches Err(e) && e@ == code_name(ltype as int) + " expected, got "@
                    + code_name(actual as int)
            }
        }),
{
    let actual = code_of(lua_type(lua, index));
    if actual == ltype {
        Ok(())
    } else {
        Err(type_mismatch(actual, lua_typename(ltype)))
    }
}

/// Checks that there is room for `sz` more values.
pub fn lua_checkstack(lua: &LuaStack, sz: i32, msg: Option<&str>) -> (r: Result<(), String>)
    requires
        lua.wf(),
        sz >= 0,
    ensures
        if lua.room() >= sz {
            r is Ok
        } else {
            r matches Err(e) && e@ == match msg {
                None => "stack overflow"@,
                Some(m) => "stack overflow ("@ + m@ + ")"@,
            }
        },
{
    if lua.free() >= sz as usize {
        return Ok(());
    }
    match msg {
        None => Err("stack overflow".to_owned()),
        Some(m) => {
            let mut s = "stack overflow (".to_owned();
            s.append(m);
            s.append(")");
            Err(s)
        },
    }
}

/// The place of an index, counted from the bottom.
pub fn lua_absindex(lua: &LuaStack, index: i32) -> (r: i32)
    requires
        lua.wf(),
    ensures
        r == lua.abs(index as int),
{
    lua.abs_index(index)
}

/// The number of slots in use.
pub fn lua_top(lua: &LuaStack) -> (r: i32)
    requires
        lua.wf(),
    ensures
        r == lua@.len(),
{
    lua.top()
}

/// Sets how many slots are in use.
pub fn lua_settop(lua: &mut LuaStack, idx: i32)
    requires
        old(lua).wf(),
        idx <= old(lua).limit,
        idx < 0 ==> -old(lua)@.len() - 1 <= idx,
    ensures
        final(lua).wf(),
        final(lua).same_machine(*old(lua)),
        final(lua)@ == resized(
            old(lua)@,
            if idx < 0 {
                old(lua)@.len() + idx + 1
            } else {
                idx as int
            },
        ),
{
    lua.set_top(idx);
}

/// Drops values from the top.
pub fn lua_pop(lua: &mut LuaStack, n: i32)
    requires
        old(lua).wf(),
        0 <= n <= old(lua)@.len(),
    ensures
        final(lua).wf(),
        final(lua).same_machine(*old(lua)),
        final(lua)@ == old(lua)@.take(old(lua)@.len() - n),
{
    lua.pop(n);
}

/// Puts nil on top.
pub fn lua_pushnil(lua: &mut LuaStack)
    requires
        old(lua).wf(),
        old(lua).room() >= 1,
    ensures
        final(lua).wf(),
        final(lua).same_machine(*old(lua)),
        final(lua)@ == old(lua)@.push(Val::Nil),
{
    lua.push_value(LuaValue::Nil);
}

/// Puts an address on top.
pub fn lua_pushlightuserdata(lua: &mut LuaStack, p: u64)
    requires
        old(lua).wf(),
        old(lua).room() >= 1,
    ensures
        final(lua).wf(),
        final(lua).same_machine(*old(lua)),
        final(lua)@ == old(lua)@.push(Val::Light(p)),
{
    lua.push_value(LuaValue::LightUserData(p));
}

/// A value on the stack, with its kind.
#[derive(Clone, Copy)]
pub struct LuaStackValue<'ctx> {
    pub context: &'ctx LuaStack,
    pub index: i32,
    pub kind: LuaType,
}

/// The text of a value in messages.
pub open spec fn display_text(v: Option<Val>) -> Seq<char> {
    match v {
        None => "none"@,
        Some(Val::Nil) => "nil"@,
        Some(Val::Bool(b)) => if b {
            "true"@
        } else {
            "false"@
        },
        Some(Val::Num(_, text)) => text,
        Some(Val::Int(i)) => if i < 0 {
            decimal(-(printed_magnitude((-i) as nat) as int))
        } else {
            decimal(printed_magnitude(i as nat) as int)
        },
        Some(Val::Str(b, _)) => lossy_text(b),
        Some(Val::Table(_)) => "table"@,
        Some(Val::Light(p)) => "0x"@ + numeral(p as nat, 16),
        Some(Val::Func(p)) => "0x"@ + numeral(p as nat, 16),
        Some(Val::User(p, _)) => "0x"@ + numeral(p as nat, 16),
        Some(Val::Thread(p)) => "0x"@ + numeral(p as nat, 16),
    }
}

impl<'ctx> LuaStackValue<'ctx> {
    /// The place is acceptable and the kind is the one of the value there.
    pub open spec fn wf(self) -> bool {
        &&& self.context.wf()
        &&& self.index > 0
        &&& self.kind == slot_kind(self.slot())
    }

    /// The value.
    pub open spec fn slot(self) -> Option<Val> {
        self.context.slot(self.index as int)
    }

    pub fn state(&self) -> (r: LuaState)
        ensures
            r == self.context.state,
    {
        self.context.state()
    }

    /// The place of the value.
    pub fn index(&self) -> (r: i32)
        ensures
            r == self.index,
    {
        self.index
    }

    /// The kind of the value.
    pub fn kind(&self) -> (r: LuaType)
        ensures
            r == self.kind,
    {
        self.kind
    }

    /// The name of the kind.
    pub fn name(&self) -> (r: &'static str)
        ensures
            r@ == kind_name(self.kind),
    {
        self.kind.name()
    }

    pub fn as_bool(&self) -> (r: Option<bool>)
        requires
            self.wf(),
        ensures
            r == match self.slot() {
                Some(Val::Bool(b)) => Some(b),
                _ => None,
            },
    {
        match self.context.at(self.index) {
            Some(LuaValue::Boolean(b)) => Some(*b),
            _ => None,
        }
    }

    pub fn as_integer(&self) -> (r: Option<i64>)
        requires
            self.wf(),
        ensures
            r == match self.slot() {
                Some(Val::Int(i)) => Some(i),
                _ => None,
            },
    {
        match self.context.at(self.index) {
            Some(LuaValue::Integer(i)) => Some(*i),
            _ => None,
        }
    }

    pub fn as_bytes(&self) -> (r: Option<&'ctx [u8]>)
        requires
            self.wf(),
        ensures
            match self.slot() {
                Some(Val::Str(b, _)) => r matches Some(s) && s@ == b,
                _ => r is None,
            },
    {
        match self.context.at(self.index) {
            Some(LuaValue::String(s)) => Some(s.bytes.as_slice()),
            _ => None,
        }
    }

    pub fn as_bytes_append_only(&self) -> (r: Option<&'ctx [u8]>)
        requires
            self.wf(),
        ensures
            match self.slot() {
                Some(Val::Str(b, _)) => r matches Some(s) && s@ == b,
                _ => r is None,
            },
    {
        self.as_bytes()
    }

    /// The text of a string that is valid UTF-8.
    pub fn as_str(&self) -> (r: Option<&'ctx str>)
        requires
            self.wf(),
        ensures
            match self.slot() {
                Some(Val::Str(b, _)) => if valid_utf8(b) {
                    r matches Some(s) && s@ == decode_utf8(b) && s.spec_bytes() == b
                } else {
                    r is None
                },
                _ => r is None,
            },
    {
        match self.as_bytes() {
            Some(bytes) => match from_utf8(bytes) {
                Ok(s) => Some(s),
                Err(_) => None,
            },
            None => None,
        }
    }

    /// The text of a string, what is no UTF-8 replaced.
    pub fn as_string_lossy(&self) -> (r: Option<String>)
        requires
            self.wf(),
        ensures
            match self.slot() {
                Some(Val::Str(b, _)) => r matches Some(s) && s@ == lossy_text(b) && (valid_utf8(b)
                    ==> s@ == decode_utf8(b)),
                _ => r is None,
            },
    {
        match self.as_bytes() {
            Some(bytes) => Some(from_utf8_lossy(bytes)),
            None => None,
        }
    }

    /// The address of a full userdata.
    pub fn as_userdata(&self) -> (r: Option<u64>)
        requires
            self.wf(),
        ensures
            r == match self.slot() {
                Some(Val::User(p, _)) => if p == 0 {
                    None
                } else {
                    Some(p)
                },
                _ => None,
            },
    {
        match self.context.at(self.index) {
            Some(LuaValue::UserData(p, _)) => if *p == 0 {
                None
            } else {
                Some(*p)
            },
            _ => None,
        }
    }

    /// The address in a light userdata, which may be null.
    pub fn as_light_userdata(&self) -> (r: Option<u64>)
        requires
            self.wf(),
        ensures
            r == match self.slot() {
                Some(Val::Light(p)) => Some(p),
                _ => None,
            },
    {
        match self.context.at(self.index) {
            Some(LuaValue::LightUserData(p)) => Some(*p),
            _ => None,
        }
    }

    /// The text of the value in messages.
    pub fn to_string(&self) -> (r: String)
        requires
            self.wf(),
        ensures
            r@ == display_text(self.slot()),
    {
        match self.context.at(self.index) {
            None => "none".to_owned(),
            Some(v) => value_text(v),
        }
    }
}

/// The text of a value in messages.
pub fn value_text(v: &LuaValue) -> (r: String)
    ensures
        r@ == display_text(Some(v@)),
{
    let mut s = String::new();
    match v {
        LuaValue::Nil => {
            s.append("nil");
        },
        LuaValue::Boolean(b) => {
            if *b {
                s.append("true");
            } else {
                s.append("false");
            }
        },
        LuaValue::Number(n) => {
            s.append(n.text.as_str());
        },
        LuaValue::Integer(i) => {
            let m = print_magnitude(magnitude(*i));
            push_signed(&mut s, *i < 0, m);
        },
        LuaValue::String(b) => {
            return from_utf8_lossy(b.bytes.as_slice());
        },
        LuaValue::Table(_) => {
            s.append("table");
        },
        LuaValue::LightUserData(p) | LuaValue::Function(p) | LuaValue::UserData(p, _)
        | LuaValue::Thread(p) => {
            push_pointer(&mut s, *p);
        },
    }
    assert(s@ =~= display_text(Some(v@)));
    s
}

/// A value of another type than was asked for.
#[derive(Clone, Copy, Debug)]
pub struct LuaTypeError {
    pub expected: &'static str,
    pub actual: LuaType,
}

/// The name of a kind in type errors.
pub open spec fn kind_label(t: LuaType) -> Seq<char> {
    match t {
        LuaType::Absent => "None"@,
        LuaType::Nil => "Nil"@,
        LuaType::Boolean => "Boolean"@,
        LuaType::LightUserData => "LightUserData"@,
        LuaType::Number => "Number"@,
        LuaType::String => "String"@,
        LuaType::Table => "Table"@,
        LuaType::Function => "Function"@,
        LuaType::UserData => "UserData"@,
        LuaType::Thread => "Thread"@,
        LuaType::Integer => "Integer"@,
    }
}

/// The report of a type error.
pub open spec fn type_error_text(expected: Seq<char>, actual: LuaType) -> Seq<char> {
    "expected "@ + expected + ", got "@ + kind_label(actual)
}

impl LuaTypeError {
    /// The report of the error.
    pub fn to_string(&self) -> (r: String)
        ensures
            r@ == type_error_text(self.expected@, self.actual),
    {
        let mut s = "expected ".to_owned();
        s.append(self.expected);
        s.append(", got ");
        s.append(
            match self.actual {
                LuaType::Absent => "None",
                LuaType::Nil => "Nil",
                LuaType::Boolean => "Boolean",
                LuaType::LightUserData => "LightUserData",
                LuaType::Number => "Number",
                LuaType::String => "String",
                LuaType::Table => "Table",
                LuaType::Function => "Function",
                LuaType::UserData => "UserData",
                LuaType::Thread => "Thread",
                LuaType::Integer => "Integer",
            },
        );
        s
    }
}

impl From<LuaTypeError> for String {
    fn from(error: LuaTypeError) -> (r: Self)
        ensures
            r@ == type_error_text(error.expected@, error.actual),
    {
        error.to_string()
    }
}

impl vstd::std_specs::convert::FromSpecImpl<LuaTypeError> for String {
    open spec fn obeys_from_spec() -> bool {
        false
    }

    open spec fn from_spec(v: LuaTypeError) -> Self {
        arbitrary()
    }
}

/// Owned values that can be read from a slot.
pub trait FromLua: Sized {
    /// Whether the slot holds such a value.
    spec fn accepts(v: Option<Val>) -> bool;

    /// What a type error says was expected.
    spec fn expected() -> Seq<char>;

    /// Whether this is the value that the slot holds.
    spec fn is_from(self, v: Option<Val>) -> bool;

    /// Reads the value at an index.
    fn from_lua(lua: &LuaStack, index: i32) -> (r: Result<Self, LuaTypeError>)
        requires
            lua.wf(),
            lua.acceptable(index as int),
        ensures
            match r {
                Ok(x) => Self::accepts(lua.slot(index as int)) && x.is_from(
                    lua.slot(index as int),
                ),
                Err(e) => !Self::accepts(lua.slot(index as int)) && e.expected@ == Self::expected()
                    && e.actual == slot_kind(lua.slot(index as int)),
            },
    ;
}

impl FromLua for bool {
    open spec fn accepts(v: Option<Val>) -> bool {
        v matches Some(Val::Bool(_))
    }

    open spec fn expected() -> Seq<char> {
        "boolean"@
    }

    open spec fn is_from(self, v: Option<Val>) -> bool {
        v == Some(Val::Bool(self))
    }

    fn from_lua(lua: &LuaStack, index: i32) -> (r: Result<Self, LuaTypeError>) {
        match lua.at(index) {
            Some(LuaValue::Boolean(b)) => Ok(*b),
            _ => Err(LuaTypeError { expected: "boolean", actual: lua_type(lua, index) }),
        }
    }
}

/// `r` is `i` brought into `min..=max` by whole turns of that range.
pub open spec fn wraps_to(i: int, r: int, min: int, max: int) -> bool {
    min <= r <= max && (i - r) % (max - min + 1) == 0
}

/// Keeps the low bits of an integer that a type from `min` to `max` holds.
fn wrap_integer(i: i64, min: i128, max: i128) -> (r: i128)
    requires
        -0x8000_0000_0000_0000 <= min <= 0,
        0 < max <= 0xffff_ffff_ffff_ffff,
    ensures
        wraps_to(i as int, r as int, min as int, max as int),
{
    let turn: i128 = max - min + 1;
    let d: i128 = i as i128 - min;
    let low: i128 = if d >= 0 {
        d % turn
    } else {
        let back: i128 = (-d) % turn;
        proof {
            let x = -(d as int);
            let m = turn as int;
            assert((-x) % m == (m - x % m) % m) by (nonlinear_arith)
                requires
                    m > 0,
            {
                let q = x / m;
                let t = x % m;
                assert(x == m * q + t);
                vstd::arithmetic::div_mod::lemma_mod_multiples_vanish(-q - 1, m - t, m);
                assert(m * (-q - 1) + (m - t) == -x) by (nonlinear_arith)
                    requires
                        x == m * q + t,
                ;
            }
        }
        if back == 0 {
            0
        } else {
            turn - back
        }
    };
    proof {
        let m = turn as int;
        let dd = d as int;
        assert(low as int == dd % m) by {
            if dd < 0 {
                let back = (-dd) % m;
                if back == 0 {
                    vstd::arithmetic::div_mod::lemma_mod_self_0(m);
                } else {
                    vstd::arithmetic::div_mod::lemma_small_mod((m - back) as nat, m as nat);
                }
            }
        }
        assert((dd - dd % m) % m == 0) by (nonlinear_arith)
            requires
                m > 0,
        {
            let q = dd / m;
            assert(dd - dd % m == m * q);
            vstd::arithmetic::div_mod::lemma_mod_multiples_basic(q, m);
            assert(m * q == q * m) by (nonlinear_arith);
        }
        assert(i as int - (low + min) == dd - dd % m);
    }
    low + min
}

/// The integer that the machine reads from a slot.
fn read_integer(lua: &LuaStack, index: i32) -> (r: Result<i64, LuaTypeError>)
    requires
        lua.wf(),
        lua.acceptable(index as int),
    ensures
        match slot_integer(lua.slot(index as int)) {
            Some(i) => r matches Ok(x) && x == i,
            None => r matches Err(e) && e.expected@ == "integer"@ && e.actual == slot_kind(
                lua.slot(index as int),
            ),
        },
{
    let got: Option<i64> = match lua.at(index) {
        Some(LuaValue::Integer(i)) => Some(*i),
        Some(LuaValue::Number(n)) => number_to_integer(n.bits),
        Some(LuaValue::String(s)) => s.integer,
        _ => None,
    };
    match got {
        Some(i) => Ok(i),
        None => Err(LuaTypeError { expected: "integer", actual: lua_type(lua, index) }),
    }
}

impl FromLua for i8 {
    open spec fn accepts(v: Option<Val>) -> bool {
        slot_integer(v) is Some
    }

    open spec fn expected() -> Seq<char> {
        "integer"@
    }

    open spec fn is_from(self, v: Option<Val>) -> bool {
        slot_integer(v) matches Some(i) && wraps_to(i as int, self as int, i8::MIN as int, i8::MAX as int)
    }

    fn from_lua(lua: &LuaStack, index: i32) -> (r: Result<Self, LuaTypeError>) {
        let value = read_integer(lua, index)?;
        Ok(wrap_integer(value, i8::MIN as i128, i8::MAX as i128) as i8)
    }
}

impl FromLua for u8 {
    open spec fn accepts(v: Option<Val>) -> bool {
        slot_integer(v) is Some
    }

    open spec fn expected() -> Seq<char> {
        "integer"@
    }

    open spec fn is_from(self, v: Option<Val>) -> bool {
        slot_integer(v) matches Some(i) && wraps_to(i as int, self as int, u8::MIN as int, u8::MAX as int)
    }

    fn from_lua(lua: &LuaStack, index: i32) -> (r: Result<Self, LuaTypeError>) {
        let value = read_integer(lua, index)?;
        Ok(wrap_integer(value, u8::MIN as i128, u8::MAX as i128) as u8)
    }
}

impl FromLua for i16 {
    open spec fn accepts(v: Option<Val>) -> bool {
        slot_integer(v) is Some
    }

    open spec fn expected() -> Seq<char> {
        "integer"@
    }

    open spec fn is_from(self, v: Option<Val>) -> bool {
        slot_integer(v) matches Some(i) && wraps_to(i as int, self as int, i16::MIN as int, i16::MAX as int)
    }

    fn from_lua(lua: &LuaStack, index: i32) -> (r: Result<Self, LuaTypeError>) {
        let value = read_integer(lua, index)?;
        Ok(wrap_integer(value, i16::MIN as i128, i16::MAX as i128) as i16)
    }
}

impl FromLua for u16 {
    open spec fn accepts(v: Option<Val>) -> bool {
        slot_integer(v) is Some
    }

    open spec fn expected() -> Seq<char> {
        "integer"@
    }

    open spec fn is_from(self, v: Option<Val>) -> bool {
        slot_integer(v) matches Some(i) && wraps_to(i as int, self as int, u16::MIN as int, u16::MAX as int)
    }

    fn from_lua(lua: &LuaStack, index: i32) -> (r: Result<Self, LuaTypeError>) {
        let value = read_integer(lua, index)?;
        Ok(wrap_integer(value, u16::MIN as i128, u16::MAX as i128) as u16)
    }
}

impl FromLua for i32 {
    open spec fn accepts(v: Option<Val>) -> bool {
        slot_integer(v) is Some
    }

    open spec fn expected() -> Seq<char> {
        "integer"@
    }

    open spec fn is_from(self, v: Option<Val>) -> bool {
        slot_integer(v) matches Some(i) && wraps_to(i as int, self as int, i32::MIN as int, i32::MAX as int)
    }

    fn from_lua(lua: &LuaStack, index: i32) -> (r: Result<Self, LuaTypeError>) {
        let value = read_integer(lua, index)?;
        Ok(wrap_integer(value, i32::MIN as i128, i32::MAX as i128) as i32)
    }
}

impl FromLua for u32 {
    open spec fn accepts(v: Option<Val>) -> bool {
        slot_integer(v) is Some
    }

    open spec fn expected() -> Seq<char> {
        "integer"@
    }

    open spec fn is_from(self, v: Option<Val>) -> bool {
        slot_integer(v) matches Some(i) && wraps_to(i as int, self as int, u32::MIN as int, u32::MAX as int)
    }

    fn from_lua(lua: &LuaStack, index: i32) -> (r: Result<Self, LuaTypeError>) {
        let value = read_integer(lua, index)?;
        Ok(wrap_integer(value, u32::MIN as i128, u32::MAX as i128) as u32)
    }
}

impl FromLua for i64 {
    open spec fn accepts(v: Option<Val>) -> bool {
        slot_integer(v) is Some
    }

    open spec fn expected() -> Seq<char> {
        "integer"@
    }

    open spec fn is_from(self, v: Option<Val>) -> bool {
        slot_integer(v) matches Some(i) && self == i
    }

    fn from_lua(lua: &LuaStack, index: i32) -> (r: Result<Self, LuaTypeError>) {
        let value = read_integer(lua, index)?;
        Ok(value)
    }
}

impl FromLua for u64 {
    open spec fn accepts(v: Option<Val>) -> bool {
        slot_integer(v) is Some
    }

    open spec fn expected() -> Seq<char> {
        "integer"@
    }

    open spec fn is_from(self, v: Option<Val>) -> bool {
        slot_integer(v) matches Some(i) && self == unsigned64(i as int)
    }

    fn from_lua(lua: &LuaStack, index: i32) -> (r: Result<Self, LuaTypeError>) {
        let value = read_integer(lua, index)?;
        Ok(bits64(value))
    }
}

impl FromLua for isize {
    open spec fn accepts(v: Option<Val>) -> bool {
        slot_integer(v) is Some
    }

    open spec fn expected() -> Seq<char> {
        "integer"@
    }

    open spec fn is_from(self, v: Option<Val>) -> bool {
        slot_integer(v) matches Some(i) && wraps_to(i as int, self as int, isize::MIN as int, isize::MAX as int)
    }

    fn from_lua(lua: &LuaStack, index: i32) -> (r: Result<Self, LuaTypeError>) {
        let value = read_integer(lua, index)?;
        Ok(wrap_integer(value, isize::MIN as i128, isize::MAX as i128) as isize)
    }
}

impl FromLua for usize {
    open spec fn accepts(v: Option<Val>) -> bool {
        slot_integer(v) is Some
    }

    open spec fn expected() -> Seq<char> {
        "integer"@
    }

    open spec fn is_from(self, v: Option<Val>) -> bool {
        slot_integer(v) matches Some(i) && wraps_to(i as int, self as int, usize::MIN as int, usize::MAX as int)
    }

    fn from_lua(lua: &LuaStack, index: i32) -> (r: Result<Self, LuaTypeError>) {
        let value = read_integer(lua, index)?;
        Ok(wrap_integer(value, usize::MIN as i128, usize::MAX as i128) as usize)
    }
}

impl FromLua for String {
    open spec fn accepts(v: Option<Val>) -> bool {
        v matches Some(Val::Str(b, _)) && valid_utf8(b)
    }

    open spec fn expected() -> Seq<char> {
        "UTF-8 string"@
    }

    open spec fn is_from(self, v: Option<Val>) -> bool {
        v matches Some(Val::Str(b, _)) && valid_utf8(b) && self@ == decode_utf8(b)
    }

    fn from_lua(lua: &LuaStack, index: i32) -> (r: Result<Self, LuaTypeError>) {
        let value = lua.value(index);
        match value.as_str() {
            Some(s) => Ok(s.to_owned()),
            None => Err(LuaTypeError { expected: "UTF-8 string", actual: value.kind() }),
        }
    }
}

impl FromLua for Vec<u8> {
    open spec fn accepts(v: Option<Val>) -> bool {
        v matches Some(Val::Str(_, _))
    }

    open spec fn expected() -> Seq<char> {
        "string"@
    }

    open spec fn is_from(self, v: Option<Val>) -> bool {
        v matches Some(Val::Str(b, _)) && self@ == b
    }

    fn from_lua(lua: &LuaStack, index: i32) -> (r: Result<Self, LuaTypeError>) {
        let value = lua.value(index);
        match value.as_bytes() {
            Some(b) => Ok(copy_bytes(b)),
            None => Err(LuaTypeError { expected: "string", actual: value.kind() }),
        }
    }
}

impl FromLua for LuaNil {
    open spec fn accepts(v: Option<Val>) -> bool {
        v == Some(Val::Nil)
    }

    open spec fn expected() -> Seq<char> {
        "nil"@
    }

    open spec fn is_from(self, v: Option<Val>) -> bool {
        v == Some(Val::Nil)
    }

    fn from_lua(lua: &LuaStack, index: i32) -> (r: Result<Self, LuaTypeError>) {
        match lua.at(index) {
            Some(LuaValue::Nil) => Ok(LuaNil),
            _ => Err(LuaTypeError { expected: "nil", actual: lua_type(lua, index) }),
        }
    }
}

impl<T: FromLua> FromLua for Option<T> {
    open spec fn accepts(v: Option<Val>) -> bool {
        none_or_nil(v) || T::accepts(v)
    }

    open spec fn expected() -> Seq<char> {
        T::expected()
    }

    open spec fn is_from(self, v: Option<Val>) -> bool {
        if none_or_nil(v) {
            self is None
        } else {
            self matches Some(x) && x.is_from(v)
        }
    }

    fn from_lua(lua: &LuaStack, index: i32) -> (r: Result<Self, LuaTypeError>) {
        match lua.at(index) {
            None | Some(LuaValue::Nil) => Ok(None),
            _ => match T::from_lua(lua, index) {
                Ok(x) => Ok(Some(x)),
                Err(e) => Err(e),
            },
        }
    }
}

/// Values that can be put on the stack.
pub trait LuaPush: Sized {
    /// The value that is put there.
    spec fn pushed(&self) -> Val;

    /// The value as the stack holds it.
    fn into_value(self) -> (r: LuaValue)
        ensures
            r@ == self.pushed(),
    ;

    /// Puts the value on top.
    fn push(self, lua: &mut LuaStack)
        requires
            old(lua).wf(),
            old(lua).room() >= 1,
        ensures
            final(lua).wf(),
            final(lua).same_machine(*old(lua)),
            final(lua)@ == old(lua)@.push(self.pushed()),
    {
        lua.push_value(self.into_value());
    }
}

impl LuaPush for i8 {
    open spec fn pushed(&self) -> Val {
        Val::Int(*self as i64)
    }

    fn into_value(self) -> (r: LuaValue) {
        LuaValue::Integer(self as i64)
    }
}

impl LuaPush for u8 {
    open spec fn pushed(&self) -> Val {
        Val::Int(*self as i64)
    }

    fn into_value(self) -> (r: LuaValue) {
        LuaValue::Integer(self as i64)
    }
}

impl LuaPush for i16 {
    open spec fn pushed(&self) -> Val {
        Val::Int(*self as i64)
    }

    fn into_value(self) -> (r: LuaValue) {
        LuaValue::Integer(self as i64)
    }
}

impl LuaPush for u16 {
    open spec fn pushed(&self) -> Val {
        Val::Int(*self as i64)
    }

    fn into_value(self) -> (r: LuaValue) {
        LuaValue::Integer(self as i64)
    }
}

impl LuaPush for i32 {
    open spec fn pushed(&self) -> Val {
        Val::Int(*self as i64)
    }

    fn into_value(self) -> (r: LuaValue) {
        LuaValue::Integer(self as i64)
    }
}

impl LuaPush for u32 {
    open spec fn pushed(&self) -> Val {
        Val::Int(*self as i64)
    }

    fn into_value(self) -> (r: LuaValue) {
        LuaValue::Integer(self as i64)
    }
}

impl LuaPush for i64 {
    open spec fn pushed(&self) -> Val {
        Val::Int(*self)
    }

    fn into_value(self) -> (r: LuaValue) {
        LuaValue::Integer(self)
    }
}

impl LuaPush for u64 {
    open spec fn pushed(&self) -> Val {
        Val::Int(signed64(*self as nat) as i64)
    }

    fn into_value(self) -> (r: LuaValue) {
        LuaValue::Integer(integer64(self))
    }
}

impl LuaPush for isize {
    open spec fn pushed(&self) -> Val {
        Val::Int(*self as i64)
    }

    fn into_value(self) -> (r: LuaValue) {
        LuaValue::Integer(self as i64)
    }
}

impl LuaPush for usize {
    open spec fn pushed(&self) -> Val {
        Val::Int(signed64(*self as nat) as i64)
    }

    fn into_value(self) -> (r: LuaValue) {
        LuaValue::Integer(integer64(self as u64))
    }
}

impl LuaPush for bool {
    open spec fn pushed(&self) -> Val {
        Val::Bool(*self)
    }

    fn into_value(self) -> (r: LuaValue) {
        LuaValue::Boolean(self)
    }
}

impl LuaPush for &str {
    open spec fn pushed(&self) -> Val {
        Val::Str(self.spec_bytes(), None)
    }

    fn into_value(self) -> (r: LuaValue) {
        LuaValue::from_bytes(copy_bytes(self.as_bytes()))
    }
}

impl LuaPush for String {
    open spec fn pushed(&self) -> Val {
        Val::Str(encode_utf8(self@), None)
    }

    fn into_value(self) -> (r: LuaValue) {
        LuaValue::from_bytes(copy_bytes(self.as_str().as_bytes()))
    }
}

impl LuaPush for &[u8] {
    open spec fn pushed(&self) -> Val {
        Val::Str(self@, None)
    }

    fn into_value(self) -> (r: LuaValue) {
        LuaValue::from_bytes(copy_bytes(self))
    }
}

impl LuaPush for Vec<u8> {
    open spec fn pushed(&self) -> Val {
        Val::Str(self@, None)
    }

    fn into_value(self) -> (r: LuaValue) {
        LuaValue::from_bytes(self)
    }
}

impl LuaPush for LuaNil {
    open spec fn pushed(&self) -> Val {
        Val::Nil
    }

    fn into_value(self) -> (r: LuaValue) {
        LuaValue::Nil
    }
}

/// Puts a value on top.
pub fn lua_push<T: LuaPush>(lua: &mut LuaStack, v: T)
    requires
        old(lua).wf(),
        old(lua).room() >= 1,
    ensures
        final(lua).wf(),
        final(lua).same_machine(*old(lua)),
        final(lua)@ == old(lua)@.push(v.pushed()),
{
    v.push(lua);
}

/// Counts argument places.
#[derive(Clone, Copy, Debug, PartialEq, Eq, Structural)]
pub struct LuaArgs {
    pub current: i32,
}

impl LuaArgs {
    pub fn new(start: i32) -> (r: Self)
        ensures
            r.current == start,
    {
        LuaArgs { current: start }
    }

    /// The next place.
    pub fn iter_arg(&mut self) -> (r: i32)
        requires
            old(self).current < i32::MAX,
        ensures
            r == old(self).current,
            final(self).current == old(self).current + 1,
    {
        let result = self.current;
        self.current = result + 1;
        result
    }
}

/// The key that a field name stands for.
pub open spec fn field_key(field: &str) -> Val {
    Val::Str(field.spec_bytes(), None)
}

/// The value of a raw field, where the slot holds a table.
pub open spec fn slot_field(v: Option<Val>, key: Val) -> Option<Val> {
    match v {
        Some(Val::Table(t)) => Some(t.get(key)),
        _ => None,
    }
}

/// What [`LuaStack::has_metafield`] can be asked for.
#[derive(Clone, Copy, Debug, PartialEq, Eq, Structural)]
pub enum Metafield {
    Pairs,
    Object,
}

impl LuaStack {
    /// Reads the value at an index as a `T`.
    pub fn get<T: FromLua>(&self, index: i32) -> (r: Result<T, LuaTypeError>)
        requires
            self.wf(),
            self.acceptable(index as int),
        ensures
            match r {
                Ok(x) => T::accepts(self.slot(index as int)) && x.is_from(self.slot(index as int)),
                Err(e) => !T::accepts(self.slot(index as int)) && e.expected@ == T::expected()
                    && e.actual == slot_kind(self.slot(index as int)),
            },
    {
        T::from_lua(self, index)
    }

    /// Reads the value at an index as a `T` if it is one.
    pub fn opt<T: FromLua>(&self, index: i32) -> (r: Option<T>)
        requires
            self.wf(),
            self.acceptable(index as int),
        ensures
            match r {
                Some(x) => T::accepts(self.slot(index as int)) && x.is_from(
                    self.slot(index as int),
                ),
                None => !T::accepts(self.slot(index as int)),
            },
    {
        match self.get::<T>(index) {
            Ok(x) => Some(x),
            Err(_) => None,
        }
    }

    /// Puts a value on top.
    pub fn push<T: LuaPush>(&mut self, value: T)
        requires
            old(self).wf(),
            old(self).room() >= 1,
        ensures
            final(self).wf(),
            final(self).same_machine(*old(self)),
            final(self)@ == old(self)@.push(value.pushed()),
    {
        value.push(self);
    }

    /// The raw field of the table at an index, if that is a table.
    pub fn raw_field(&self, index: i32, field: &str) -> (r: Option<LuaValue>)
        requires
            self.wf(),
            self.acceptable(index as int),
        ensures
            match r {
                Some(v) => slot_field(self.slot(index as int), field_key(field)) == Some(v@),
                None => slot_field(self.slot(index as int), field_key(field)) is None,
            },
    {
        match self.at(index) {
            Some(LuaValue::Table(t)) => {
                let key = LuaValue::from_bytes(copy_bytes(field.as_bytes()));
                match t.get(&key) {
                    Some(v) => Some(v.duplicate()),
                    None => Some(LuaValue::Nil),
                }
            },
            _ => None,
        }
    }

    /// Reads a raw field as a `T` if the slot holds a table whose field is one.
    /// The stack is as before.
    pub fn opt_field<T: FromLua>(&mut self, index: i32, field: &str) -> (r: Option<T>)
        requires
            old(self).wf(),
            old(self).acceptable(index as int),
            old(self).room() >= 1,
        ensures
            final(self).wf(),
            final(self).same_machine(*old(self)),
            final(self)@ == old(self)@,
            ({
                let f = slot_field(old(self).slot(index as int), field_key(field));
                match r {
                    Some(x) => f is Some && !(f->0 is Nil) && T::accepts(f) && x.is_from(f),
                    None => f is None || f->0 is Nil || !T::accepts(f),
                }
            }),
    {
        let top = self.top();
        match self.raw_field(index, field) {
            None => None,
            Some(v) => {
                self.push_value(v);
                let value: Option<T> = if lua_type(self, -1) == LuaType::Nil {
                    None
                } else {
                    self.opt::<T>(-1)
                };
                self.set_top(top);
                assert(self@ =~= old(self)@);
                value
            },
        }
    }

    /// Whether the table at an index has a metafield.
    pub fn has_metafield(&self, index: i32, field: Metafield) -> (r: bool)
        requires
            self.wf(),
            self.acceptable(index as int),
        ensures
            r == match self.slot(index as int) {
                Some(Val::Table(t)) => match field {
                    Metafield::Pairs => t.pairs is Some,
                    Metafield::Object => t.object,
                },
                _ => false,
            },
    {
        match self.at(index) {
            Some(LuaValue::Table(t)) => match field {
                Metafield::Pairs => t.pairs.is_some(),
                Metafield::Object => t.object,
            },
            _ => false,
        }
    }
}

} // verus!
