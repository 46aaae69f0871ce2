//! Building tables on the stack.
use vstd::prelude::*;

use crate::laux::{filled, strict_len, LuaPush, LuaStack};
use crate::number::{integer64, signed64};
use crate::seri_laws::proper_key;
use crate::table_laws::found_again;
use crate::value::{is_key, LuaValue, Tab, TableValue, Val};

verus! {

/// A table under construction: its slot, and how many values were appended.
#[derive(Clone, Copy, Debug, PartialEq, Eq, Structural)]
pub struct LuaTable {
    pub index: i32,
    pub pos: usize,
}

/// A stack whose slot `index` holds a table, with an entry of it set raw.
pub open spec fn with_entry(s: Seq<Val>, index: int, key: Val, v: Val) -> Seq<Val> {
    s.update(index - 1, Val::Table(s[index - 1]->Table_0.set(key, v).settled()))
}

/// The key of a sequence element.
pub open spec fn place_key(n: int) -> Val {
    Val::Int(signed64(n as nat) as i64)
}

/// Sets an entry of the table in a slot.
fn raw_set(lua: &mut LuaStack, index: i32, key: LuaValue, v: LuaValue)
    requires
        old(lua).wf(),
        1 <= index <= old(lua)@.len(),
        old(lua)@[index - 1] is Table,
        is_key(key@),
    ensures
        final(lua).wf(),
        final(lua).same_machine(*old(lua)),
        final(lua)@ == with_entry(old(lua)@, index as int, key@, v@),
{
    let place = index as usize - 1;
    match &mut lua.slots[place] {
        LuaValue::Table(t) => {
            t.set(key, v);
            t.settle();
        },
        _ => {},
    }
    assert(lua@ =~= with_entry(old(lua)@, index as int, key@, v@));
}

/// Takes the value off the top.
fn take_top(lua: &mut LuaStack) -> (r: LuaValue)
    requires
        old(lua).wf(),
        old(lua)@.len() > 0,
    ensures
        final(lua).wf(),
        final(lua).same_machine(*old(lua)),
        r@ == old(lua)@.last(),
        final(lua)@ == old(lua)@.drop_last(),
{
    let r = lua.slots.pop();
    assert(lua@ =~= old(lua)@.drop_last());
    match r {
        Some(v) => v,
        None => LuaValue::Nil,
    }
}

impl LuaTable {
    /// The slot holds a table.
    pub open spec fn on(self, lua: LuaStack) -> bool {
        &&& lua.wf()
        &&& 1 <= self.index <= lua@.len()
        &&& lua@[self.index - 1] is Table
    }

    /// Puts an empty table on top. The sizes only say how much is coming.
    pub fn new(lua: &mut LuaStack, _narr: usize, _nrec: usize) -> (r: Self)
        requires
            old(lua).wf(),
            old(lua).room() >= 1,
        ensures
            r.on(*final(lua)),
            final(lua).same_machine(*old(lua)),
            final(lua)@ == old(lua)@.push(Val::Table(Tab::empty())),
            r.index == old(lua)@.len() + 1,
            r.pos == 0,
    {
        lua.push_value(LuaValue::Table(TableValue::new()));
        LuaTable { index: lua.top(), pos: 0 }
    }

    /// The slot of the table.
    pub fn index(&self) -> (r: i32)
        ensures
            r == self.index,
    {
        self.index
    }

    /// Sets a key.
    pub fn insert<K: LuaPush, V: LuaPush>(&self, lua: &mut LuaStack, key: K, val: V) -> (r: &Self)
        requires
            self.on(*old(lua)),
            is_key(key.pushed()),
        ensures
            self.on(*final(lua)),
            final(lua).same_machine(*old(lua)),
            final(lua)@ == with_entry(old(lua)@, self.index as int, key.pushed(), val.pushed()),
            *r == *self,
    {
        raw_set(lua, self.index, key.into_value(), val.into_value());
        self
    }

    /// Appends a value.
    pub fn push<V: LuaPush>(&mut self, lua: &mut LuaStack, val: V)
        requires
            old(self).on(*old(lua)),
            old(self).pos < usize::MAX,
        ensures
            final(self).on(*final(lua)),
            final(lua).same_machine(*old(lua)),
            final(self).index == old(self).index,
            final(self).pos == old(self).pos + 1,
            final(lua)@ == with_entry(
                old(lua)@,
                old(self).index as int,
                place_key(old(self).pos + 1),
                val.pushed(),
            ),
    {
        self.pos = self.pos + 1;
        let key = LuaValue::Integer(integer64(self.pos as u64));
        raw_set(lua, self.index, key, val.into_value());
    }

    /// Appends the table on top, which leaves the stack.
    pub fn push_table(&mut self, lua: &mut LuaStack, table: LuaTable)
        requires
            old(self).on(*old(lua)),
            old(self).pos < usize::MAX,
            table.index == old(lua)@.len(),
            old(self).index < old(lua)@.len(),
        ensures
            final(self).on(*final(lua)),
            final(lua).same_machine(*old(lua)),
            final(self).index == old(self).index,
            final(self).pos == old(self).pos + 1,
            final(lua)@ == with_entry(
                old(lua)@.drop_last(),
                old(self).index as int,
                place_key(old(self).pos + 1),
                old(lua)@.last(),
            ),
    {
        self.pos = self.pos + 1;
        self.rawseti(lua, self.pos);
    }

    /// Sets a sequence element to the value on top, which leaves the stack.
    pub fn rawseti(&self, lua: &mut LuaStack, n: usize)
        requires
            self.on(*old(lua)),
            self.index < old(lua)@.len(),
        ensures
            self.on(*final(lua)),
            final(lua).same_machine(*old(lua)),
            final(lua)@ == with_entry(
                old(lua)@.drop_last(),
                self.index as int,
                place_key(n as int),
                old(lua)@.last(),
            ),
    {
        let v = take_top(lua);
        raw_set(lua, self.index, LuaValue::Integer(integer64(n as u64)), v);
    }

    /// Sets the key below the top to the value on top; both leave the stack.
    pub fn insert_from_stack(&self, lua: &mut LuaStack)
        requires
            self.on(*old(lua)),
            self.index + 2 <= old(lua)@.len(),
            is_key(old(lua)@[old(lua)@.len() - 2]),
        ensures
            self.on(*final(lua)),
            final(lua).same_machine(*old(lua)),
            final(lua)@ == with_entry(
                old(lua)@.take(old(lua)@.len() - 2),
                self.index as int,
                old(lua)@[old(lua)@.len() - 2],
                old(lua)@.last(),
            ),
    {
        let v = take_top(lua);
        let k = take_top(lua);
        assert(lua@ =~= old(lua)@.take(old(lua)@.len() - 2));
        raw_set(lua, self.index, k, v);
    }
}

proof fn lemma_filled(array: Seq<Val>)
    ensures
        filled(array) <= array.len(),
        filled(array) == array.len() <==> forall|i: int|
            0 <= i < array.len() ==> !((#[trigger] array[i]) is Nil),
    decreases array.len(),
{
    if array.len() > 0 {
        let front = array.drop_last();
        lemma_filled(front);
        assert(forall|i: int| 0 <= i < front.len() ==> #[trigger] front[i] == array[i]);
        if filled(array) == array.len() {
            assert forall|i: int| 0 <= i < array.len() implies !((#[trigger] array[i]) is Nil) by {
                if i < front.len() {
                    assert(front[i] == array[i]);
                }
            }
        }
    }
}

/// A table as the machine hands it over: the sequence part ends at a border, and
/// every other entry has a value and a stored key that is outside that part and
/// that a lookup can find.
pub open spec fn machine_form(t: Tab) -> bool {
    &&& t.array.len() < i64::MAX
    &&& t.array.len() > 0 ==> !(t.array.last() is Nil)
    &&& keys_outside(t)
    &&& forall|i: int| 0 <= i < t.hash.len() ==> found_again((#[trigger] t.hash[i]).0)
    &&& forall|i: int| 0 <= i < t.hash.len() ==> !((#[trigger] t.hash[i]).1 is Nil)
}

/// The other entries of a table have stored keys that neither belong to the
/// sequence part nor follow it.
pub open spec fn keys_outside(t: Tab) -> bool {
    forall|i: int| 0 <= i < t.hash.len() ==> proper_key((#[trigger] t.hash[i]).0, t.array.len())
}

/// Counting keys is enough to tell a sequence: the strict length of a table is
/// its raw length where nothing but elements without holes is in it, and zero
/// everywhere else.
pub proof fn law_strict_length_means_contiguous(t: Tab)
    requires
        keys_outside(t),
    ensures
        strict_len(t) == if t.hash.len() == 0 && (forall|i: int|
            0 <= i < t.array.len() ==> !((#[trigger] t.array[i]) is Nil)) {
            t.array.len()
        } else {
            0
        },
{
    lemma_filled(t.array);
    if t.hash.len() > 0 {
        assert(proper_key(t.hash[0].0, t.array.len()));
    }
}

} // verus!
