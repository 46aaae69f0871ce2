//! Walking tables on the stack, and building them there.
//!
//! A cursor keeps its current key and value in slots above those that were in
//! use when it was opened; closing it drops them. Between two steps the caller
//! leaves the stack as the last step did.
use vstd::prelude::*;

use crate::laux::{field_key, slot_field, strict_len, LuaStack, LuaStackValue};
use crate::number::{integer64, signed64};
use crate::pack::in_sequence;
use crate::seri_laws::proper_key;
use crate::table::{law_strict_length_means_contiguous, machine_form};
use crate::table_laws::found_again;
use crate::value::{
    array_entries, find, is_key, lemma_find, raw_equal, stored_key, LuaType, LuaValue, Tab,
    TableValue, Val,
};

verus! {

/// The entries of a table from a place of its traversal on: the sequence part
/// without its holes, then the others.
pub open spec fn entries_from(t: Tab, place: int) -> Seq<(Val, Val)>
    decreases t.array.len() + t.hash.len() - place,
{
    if place < 0 || place >= t.array.len() + t.hash.len() {
        Seq::empty()
    } else if place >= t.array.len() {
        seq![t.hash[place - t.array.len()]] + entries_from(t, place + 1)
    } else if t.array[place] is Nil {
        entries_from(t, place + 1)
    } else {
        seq![(Val::Int(signed64((place + 1) as nat) as i64), t.array[place])] + entries_from(t, place + 1)
    }
}

proof fn lemma_hash_entries(t: Tab, j: int)
    requires
        0 <= j <= t.hash.len(),
    ensures
        entries_from(t, t.array.len() + j) == t.hash.skip(j),
    decreases t.hash.len() - j,
{
    if j < t.hash.len() {
        lemma_hash_entries(t, j + 1);
    }
    assert(entries_from(t, t.array.len() + j) =~= t.hash.skip(j));
}

proof fn lemma_array_entries(t: Tab, place: int)
    requires
        0 <= place <= t.array.len(),
    ensures
        array_entries(t.array.take(place)) + entries_from(t, place) == t.entries(),
    decreases t.array.len() - place,
{
    if place == t.array.len() {
        lemma_hash_entries(t, 0);
        assert(t.hash.skip(0) =~= t.hash);
        assert(t.array.take(place) =~= t.array);
    } else {
        lemma_array_entries(t, place + 1);
        let longer = t.array.take(place + 1);
        assert(longer.drop_last() =~= t.array.take(place));
        assert(array_entries(t.array.take(place)) + entries_from(t, place) =~= array_entries(longer)
            + entries_from(t, place + 1));
    }
}

/// A walk from the start meets every entry of the table, in traversal order.
pub proof fn law_walk_meets_every_entry(t: Tab)
    ensures
        entries_from(t, 0) == t.entries(),
{
    lemma_array_entries(t, 0);
    assert(t.array.take(0) =~= Seq::empty());
    assert(array_entries(t.array.take(0)) + entries_from(t, 0) =~= entries_from(t, 0));
}

/// A walk over the key and value pairs of a table.
#[derive(Clone, Copy, Debug, PartialEq, Eq, Structural)]
pub struct LuaTableCursor {
    pub index: i32,
    pub restore_top: i32,
    pub frame_top: i32,
    pub has_value: bool,
    pub finished: bool,
    /// The place of the traversal that comes next.
    pub place: Place,
}

/// The slots of the key and the value that a walk has come to.
#[derive(Clone, Copy, Debug, PartialEq, Eq, Structural)]
pub struct LuaTableEntry {
    pub key_index: i32,
    pub value_index: i32,
}

impl LuaTableEntry {
    /// The key.
    pub fn key<'a>(&self, lua: &'a LuaStack) -> (r: LuaStackValue<'a>)
        requires
            lua.wf(),
            self.key_index > 0,
        ensures
            r.wf(),
            *r.context == *lua,
            r.index == self.key_index,
    {
        lua.value(self.key_index)
    }

    /// The value.
    pub fn value<'a>(&self, lua: &'a LuaStack) -> (r: LuaStackValue<'a>)
        requires
            lua.wf(),
            self.value_index > 0,
        ensures
            r.wf(),
            *r.context == *lua,
            r.index == self.value_index,
    {
        lua.value(self.value_index)
    }
}

/// A place of a traversal: elements passed in the sequence part, then entries
/// passed among the others.
#[derive(Clone, Copy, Debug, PartialEq, Eq, Structural)]
pub struct Place {
    pub elements: usize,
    pub others: usize,
}

impl Place {
    pub open spec fn at(self) -> int {
        self.elements + self.others
    }

    pub open spec fn within(self, t: Tab) -> bool {
        &&& self.elements <= t.array.len()
        &&& self.others <= t.hash.len()
        &&& self.others > 0 ==> self.elements == t.array.len()
    }
}

/// The next entry of a table from a place on, and the place behind it.
pub fn walk<'a>(t: &'a TableValue, place: Place) -> (r: Option<(LuaValue, &'a LuaValue, Place)>)
    requires
        place.within(t@),
    ensures
        match r {
            Some((k, v, p)) => {
                &&& p.within(t@)
                &&& place.at() < p.at()
                &&& entries_from(t@, place.at()).len() > 0
                &&& entries_from(t@, place.at())[0] == (k@, v@)
                &&& entries_from(t@, place.at()).skip(1) == entries_from(t@, p.at())
                &&& has_value(*t, *v)
            },
            None => entries_from(t@, place.at()).len() == 0,
        },
{
    let n = t.array.len();
    let mut p = place.elements;
    while p < n
        invariant
            n == t@.array.len(),
            place.within(t@),
            place.elements <= p <= n,
            entries_from(t@, place.at()) == entries_from(t@, p + place.others),
        decreases n - p,
    {
        if !t.array[p].is_nil() {
            let k = LuaValue::Integer(integer64(p as u64 + 1));
            let next = Place { elements: p + 1, others: 0 };
            assert(entries_from(t@, p as int).skip(1) =~= entries_from(t@, next.at()));
            assert(t.array@[p as int] == t.array[p as int]);
            return Some((k, &t.array[p], next));
        }
        p = p + 1;
    }
    let j = place.others;
    if j < t.hash.len() {
        let next = Place { elements: n, others: j + 1 };
        assert(entries_from(t@, n + j).skip(1) =~= entries_from(t@, next.at()));
        assert(t.hash@[j as int].1 == t.hash[j as int].1);
        Some((t.hash[j].0.duplicate(), &t.hash[j].1, next))
    } else {
        None
    }
}

/// A value is one of those in a table.
pub open spec fn has_value(t: TableValue, v: LuaValue) -> bool {
    ||| exists|i: int| 0 <= i < t.array@.len() && #[trigger] t.array@[i] == v
    ||| exists|i: int| 0 <= i < t.hash@.len() && (#[trigger] t.hash@[i]).1 == v
}

impl LuaTableCursor {
    /// The slots that the walk itself fills.
    pub open spec fn frame_values(self) -> int {
        if self.finished {
            0
        } else if self.has_value {
            2
        } else {
            1
        }
    }

    /// The table that is walked.
    pub open spec fn table(self, lua: LuaStack) -> Tab {
        lua@[self.index - 1]->Table_0
    }

    /// The cursor and the stack fit together: above the slots it was opened on
    /// there is the walk's own frame and nothing else.
    pub open spec fn on(self, lua: LuaStack) -> bool {
        &&& lua.wf()
        &&& 0 <= self.restore_top <= self.frame_top
        &&& lua@.len() == self.frame_top + self.frame_values()
        &&& !self.finished ==> {
            &&& self.frame_top + 2 <= lua.limit
            &&& 1 <= self.index <= self.frame_top
            &&& lua@[self.index - 1] is Table
            &&& self.place.within(self.table(lua))
        }
    }

    /// The slots below the walk's frame.
    pub open spec fn base(self, lua: LuaStack) -> Seq<Val> {
        lua@.take(self.frame_top as int)
    }

    /// The entries that the walk has still to meet.
    pub open spec fn remaining(self, lua: LuaStack) -> Seq<(Val, Val)> {
        if self.finished {
            Seq::empty()
        } else {
            entries_from(self.table(lua), self.place.at())
        }
    }

    /// Opens a walk over the value at an index; what is no table has no entries.
    /// Closing it will leave `restore_top` slots.
    fn open(lua: &mut LuaStack, index: i32, restore_top: i32) -> (r: Self)
        requires
            old(lua).wf(),
            old(lua).acceptable(index as int),
            0 <= restore_top <= old(lua)@.len(),
            old(lua).slot(index as int) matches Some(Val::Table(_)) ==> old(lua).room() >= 2,
        ensures
            r.on(*final(lua)),
            final(lua).same_machine(*old(lua)),
            r.restore_top == restore_top,
            r.frame_top == old(lua)@.len(),
            r.base(*final(lua)) == old(lua)@,
            r.remaining(*final(lua)) == match old(lua).slot(index as int) {
                Some(Val::Table(t)) => t.entries(),
                _ => Seq::empty(),
            },
    {
        let frame_top = lua.top();
        let index_ = lua.abs_index(index);
        let finished = lua.value(index).kind() != LuaType::Table;
        let r = LuaTableCursor {
            index: index_,
            restore_top,
            frame_top,
            has_value: false,
            finished,
            place: Place { elements: 0, others: 0 },
        };
        if !finished {
            lua.push_value(LuaValue::Nil);
            proof {
                law_walk_meets_every_entry(r.table(*lua));
                assert(lua@[r.index - 1] == old(lua)@[r.index - 1]);
            }
        }
        assert(r.base(*lua) =~= old(lua)@);
        r
    }

    /// Goes to the next entry and leaves it in the two slots of the frame; at
    /// the end the frame is empty.
    fn advance(&mut self, lua: &mut LuaStack) -> (r: Option<(i32, i32)>)
        requires
            old(self).on(*old(lua)),
        ensures
            final(self).on(*final(lua)),
            final(lua).same_machine(*old(lua)),
            final(self).restore_top == old(self).restore_top,
            final(self).frame_top == old(self).frame_top,
            final(self).base(*final(lua)) == old(self).base(*old(lua)),
            ({
                let rest = old(self).remaining(*old(lua));
                if rest.len() == 0 {
                    &&& r is None
                    &&& final(self).finished
                    &&& final(lua)@ == old(self).base(*old(lua))
                } else {
                    &&& r == Some(
                        ((old(self).frame_top + 1) as i32, (old(self).frame_top + 2) as i32),
                    )
                    &&& final(self).remaining(*final(lua)) == rest.skip(1)
                    &&& final(lua)@ == old(self).base(*old(lua)).push(rest[0].0).push(rest[0].1)
                }
            }),
    {
        let ghost base = self.base(*lua);
        let ghost rest = self.remaining(*lua);
        if self.finished {
            assert(lua@ =~= base);
            return None;
        }
        let top = self.frame_top;
        let got: Option<(LuaValue, LuaValue, Place)> = match lua.at(self.index) {
            Some(LuaValue::Table(t)) => match walk(t, self.place) {
                Some((k, v, place)) => Some((k, v.duplicate(), place)),
                None => None,
            },
            _ => None,
        };
        lua.set_top(top);
        assert(lua@ =~= base);
        self.has_value = false;
        match got {
            None => {
                self.finished = true;
                assert(self.base(*lua) =~= base);
                None
            },
            Some((k, v, place)) => {
                lua.push_value(k);
                lua.push_value(v);
                self.has_value = true;
                self.place = place;
                assert(self.base(*lua) =~= base);
                assert(lua@[self.index - 1] == base[self.index - 1]);
                Some((top + 1, top + 2))
            },
        }
    }

    /// Goes to the next entry: its key and its value, or nothing at the end.
    pub fn next<'a>(&mut self, lua: &'a mut LuaStack) -> (r: Option<
        (LuaStackValue<'a>, LuaStackValue<'a>),
    >)
        requires
            old(self).on(*old(lua)),
        ensures
            final(self).on(*final(lua)),
            final(lua).same_machine(*old(lua)),
            final(self).restore_top == old(self).restore_top,
            final(self).frame_top == old(self).frame_top,
            final(self).base(*final(lua)) == old(self).base(*old(lua)),
            ({
                let rest = old(self).remaining(*old(lua));
                if rest.len() == 0 {
                    &&& r is None
                    &&& final(self).finished
                    &&& final(lua)@ == old(self).base(*old(lua))
                } else {
                    &&& r matches Some((k, v)) && {
                        &&& k.wf() && *k.context == *final(lua) && k.slot() == Some(rest[0].0)
                        &&& v.wf() && *v.context == *final(lua) && v.slot() == Some(rest[0].1)
                    }
                    &&& final(self).remaining(*final(lua)) == rest.skip(1)
                    &&& final(lua)@ == old(self).base(*old(lua)).push(rest[0].0).push(rest[0].1)
                }
            }),
    {
        match self.advance(lua) {
            None => None,
            Some((key_index, value_index)) => {
                let context: &'a LuaStack = &*lua;
                Some((context.value(key_index), context.value(value_index)))
            },
        }
    }

    /// Goes to the next entry and names its slots.
    pub fn next_entry(&mut self, lua: &mut LuaStack) -> (r: Option<LuaTableEntry>)
        requires
            old(self).on(*old(lua)),
        ensures
            final(self).on(*final(lua)),
            final(lua).same_machine(*old(lua)),
            final(self).restore_top == old(self).restore_top,
            final(self).frame_top == old(self).frame_top,
            final(self).base(*final(lua)) == old(self).base(*old(lua)),
            ({
                let rest = old(self).remaining(*old(lua));
                if rest.len() == 0 {
                    &&& r is None
                    &&& final(self).finished
                    &&& final(lua)@ == old(self).base(*old(lua))
                } else {
                    &&& r matches Some(e) && {
                        &&& final(lua).slot(e.key_index as int) == Some(rest[0].0)
                        &&& final(lua).slot(e.value_index as int) == Some(rest[0].1)
                        &&& e.key_index > 0 && e.value_index > 0
                    }
                    &&& final(self).remaining(*final(lua)) == rest.skip(1)
                    &&& final(lua)@ == old(self).base(*old(lua)).push(rest[0].0).push(rest[0].1)
                }
            }),
    {
        match self.advance(lua) {
            None => None,
            Some((key_index, value_index)) => Some(LuaTableEntry { key_index, value_index }),
        }
    }

    /// Ends the walk, wherever it is: the stack is as it was before.
    pub fn close(self, lua: &mut LuaStack)
        requires
            self.on(*old(lua)),
        ensures
            final(lua).wf(),
            final(lua).same_machine(*old(lua)),
            final(lua)@ == old(lua)@.take(self.restore_top as int),
    {
        lua.set_top(self.restore_top);
        assert(lua@ =~= old(lua)@.take(self.restore_top as int));
    }
}

impl LuaStack {
    /// Opens a walk over the key and value pairs of a table.
    pub fn table_cursor(&mut self, index: i32) -> (r: LuaTableCursor)
        requires
            old(self).wf(),
            old(self).acceptable(index as int),
            old(self).slot(index as int) matches Some(Val::Table(_)) ==> old(self).room() >= 2,
        ensures
            r.on(*final(self)),
            final(self).same_machine(*old(self)),
            r.restore_top == old(self)@.len(),
            r.frame_top == old(self)@.len(),
            r.base(*final(self)) == old(self)@,
            r.remaining(*final(self)) == match old(self).slot(index as int) {
                Some(Val::Table(t)) => t.entries(),
                _ => Seq::empty(),
            },
    {
        let top = self.top();
        LuaTableCursor::open(self, index, top)
    }

    /// Opens a walk over a raw field that is a table. Closing it also drops the
    /// field.
    pub fn table_field_cursor(&mut self, index: i32, field: &str) -> (r: Option<LuaTableCursor>)
        requires
            old(self).wf(),
            old(self).acceptable(index as int),
            old(self).room() >= 3,
        ensures
            final(self).wf(),
            final(self).same_machine(*old(self)),
            match slot_field(old(self).slot(index as int), field_key(field)) {
                Some(Val::Table(t)) => r matches Some(c) && {
                    &&& c.on(*final(self))
                    &&& c.restore_top == old(self)@.len()
                    &&& c.frame_top == old(self)@.len() + 1
                    &&& c.base(*final(self)) == old(self)@.push(Val::Table(t))
                    &&& c.remaining(*final(self)) == t.entries()
                },
                _ => r is None && final(self)@ == old(self)@,
            },
    {
        let top = self.top();
        match self.raw_field(index, field) {
            Some(LuaValue::Table(t)) => {
                self.push_value(LuaValue::Table(t));
                Some(LuaTableCursor::open(self, -1, top))
            },
            _ => None,
        }
    }

    /// Opens a walk over the elements of a table that is a sequence and nothing
    /// else; any other value has no elements.
    pub fn array_cursor(&mut self, index: i32) -> (r: LuaArrayCursor)
        requires
            old(self).wf(),
            old(self).acceptable(index as int),
            old(self).slot(index as int) matches Some(Val::Table(_)) ==> old(self).room() >= 1,
        ensures
            r.on(*final(self)),
            *final(self) == *old(self),
            r.index == old(self).abs(index as int),
            r.top == old(self)@.len(),
            r.pos == 0,
            r.len == match old(self).slot(index as int) {
                Some(Val::Table(t)) => strict_len(t),
                _ => 0,
            },
            !r.has_value,
            r.remaining(*final(self)) == match old(self).slot(index as int) {
                Some(Val::Table(t)) => elements(t, 0, strict_len(t)),
                _ => Seq::empty(),
            },
    {
        let len = self.array_len(index);
        LuaArrayCursor::new(self, index, len)
    }

    /// Opens a walk over `len` elements of a table.
    pub fn array_cursor_len(&mut self, index: i32, len: usize) -> (r: LuaArrayCursor)
        requires
            old(self).wf(),
            old(self).acceptable(index as int),
            old(self).slot(index as int) matches Some(Val::Table(_)) ==> old(self).room() >= 1,
        ensures
            r.on(*final(self)),
            *final(self) == *old(self),
            r.index == old(self).abs(index as int),
            r.top == old(self)@.len(),
            r.pos == 0,
            r.len == match old(self).slot(index as int) {
                Some(Val::Table(t)) => len,
                _ => 0,
            },
            !r.has_value,
            r.remaining(*final(self)) == match old(self).slot(index as int) {
                Some(Val::Table(t)) => elements(t, 0, len as nat),
                _ => Seq::empty(),
            },
    {
        LuaArrayCursor::new(self, index, len)
    }
}

/// A walk over the elements of a table.
#[derive(Clone, Copy, Debug, PartialEq, Eq, Structural)]
pub struct LuaArrayCursor {
    pub index: i32,
    pub top: i32,
    pub pos: usize,
    pub len: usize,
    pub has_value: bool,
}

/// The element of a table at a place.
pub open spec fn element(t: Tab, place: int) -> Val {
    t.get(Val::Int(signed64(place as nat) as i64))
}

/// The elements of a table from behind `passed` up to `len`.
pub open spec fn elements(t: Tab, passed: nat, len: nat) -> Seq<Val> {
    Seq::new((len - passed) as nat, |i: int| element(t, passed + i + 1))
}

/// What the next step of a walk gives that has still to meet `rest`.
pub open spec fn first_of(rest: Seq<Val>) -> Option<Val> {
    if rest.len() == 0 {
        None
    } else {
        Some(rest[0])
    }
}

/// What such a walk has still to meet after a step.
pub open spec fn after_step(rest: Seq<Val>) -> Seq<Val> {
    if rest.len() == 0 {
        rest
    } else {
        rest.skip(1)
    }
}

/// What such a walk has still to meet after `k` steps.
pub open spec fn after_steps(rest: Seq<Val>, k: nat) -> Seq<Val>
    decreases k,
{
    if k == 0 {
        rest
    } else {
        after_step(after_steps(rest, (k - 1) as nat))
    }
}

proof fn lemma_after_steps(rest: Seq<Val>, k: nat)
    ensures
        after_steps(rest, k) == if k <= rest.len() {
            rest.skip(k as int)
        } else {
            Seq::empty()
        },
    decreases k,
{
    if k > 0 {
        lemma_after_steps(rest, (k - 1) as nat);
    }
    if k <= rest.len() {
        assert(after_steps(rest, k) =~= rest.skip(k as int));
    } else {
        assert(after_steps(rest, k) =~= Seq::empty());
    }
}

/// The keys of a table are exactly the integers from one to `n`.
pub open spec fn keys_upto(t: Tab, n: nat) -> bool {
    forall|k: Val|
        is_key(k) && stored_key(k) == k ==> (!((#[trigger] t.get(k)) is Nil) <==> in_sequence(k, n))
}

/// A table that is a sequence and nothing else: no holes, no other keys.
pub open spec fn is_sequence(t: Tab) -> bool {
    &&& t.hash.len() == 0
    &&& forall|i: int| 0 <= i < t.array.len() ==> !((#[trigger] t.array[i]) is Nil)
}

proof fn lemma_sequence_keys(t: Tab)
    requires
        machine_form(t),
        is_sequence(t),
    ensures
        keys_upto(t, t.array.len()),
{
    assert forall|k: Val| is_key(k) && stored_key(k) == k implies (!((#[trigger] t.get(k)) is Nil)
        <==> in_sequence(k, t.array.len())) by {
        lemma_find(t.hash, k);
        if in_sequence(k, t.array.len()) {
            assert(!(t.array[k->Int_0 - 1] is Nil));
        }
    }
}

proof fn lemma_keys_sequence(t: Tab, n: nat)
    requires
        machine_form(t),
        keys_upto(t, n),
    ensures
        is_sequence(t),
        n == t.array.len(),
{
    let len = t.array.len() as int;
    let next = Val::Int((len + 1) as i64);
    lemma_find(t.hash, next);
    if find(t.hash, next) >= 0 {
        assert(proper_key(t.hash[find(t.hash, next)].0, t.array.len()));
    }
    assert(t.get(next) is Nil);
    assert(n <= len);
    if len > 0 {
        let last = Val::Int(len as i64);
        assert(!(t.get(last) is Nil));
    }
    assert(n == len);
    if t.hash.len() > 0 {
        let k = t.hash[0].0;
        assert(proper_key(k, t.array.len()));
        assert(found_again(t.hash[0].0));
        lemma_find(t.hash, k);
        assert(raw_equal(t.hash[0].0, k));
        let j = find(t.hash, k);
        assert(!(t.hash[j].1 is Nil));
        assert(!(t.get(k) is Nil));
    }
    assert forall|i: int| 0 <= i < t.array.len() implies !((#[trigger] t.array[i]) is Nil) by {
        assert(!(t.get(Val::Int((i + 1) as i64)) is Nil));
    }
}

/// The steps of a walk that was opened over a table as a sequence. If the keys of
/// the table are exactly the integers up to `n`, step after step gives the values
/// at one, two and so on to `n`, and every step behind them gives nothing. If
/// there is a hole or any other key, no step gives anything.
pub proof fn law_array_walk_meets_a_sequence(t: Tab, n: nat, k: nat)
    requires
        machine_form(t),
    ensures
        keys_upto(t, n) ==> first_of(after_steps(elements(t, 0, strict_len(t)), k)) == if k < n {
            Some(t.get(Val::Int((k + 1) as i64)))
        } else {
            None
        },
        (forall|m: nat| !keys_upto(t, m)) ==> first_of(
            after_steps(elements(t, 0, strict_len(t)), k),
        ) is None,
{
    law_strict_length_means_contiguous(t);
    let all = elements(t, 0, strict_len(t));
    lemma_after_steps(all, k);
    if keys_upto(t, n) {
        lemma_keys_sequence(t, n);
        if k < n {
            assert(all.skip(k as int)[0] == element(t, k as int + 1));
        }
    }
    if is_sequence(t) {
        lemma_sequence_keys(t);
    }
}

impl LuaArrayCursor {
    /// The table that is walked.
    pub open spec fn table(self, lua: LuaStack) -> Tab {
        lua@[self.index - 1]->Table_0
    }

    /// The cursor and the stack fit together: above the slots it was opened on
    /// there is at most the current element.
    pub open spec fn on(self, lua: LuaStack) -> bool {
        &&& lua.wf()
        &&& 0 <= self.top
        &&& self.pos <= self.len
        &&& lua@.len() == self.top + if self.has_value {
            1int
        } else {
            0
        }
        &&& self.len > 0 ==> {
            &&& self.top + 1 <= lua.limit
            &&& 1 <= self.index <= self.top
            &&& lua@[self.index - 1] is Table
        }
    }

    /// The elements that the walk has still to meet.
    pub open spec fn remaining(self, lua: LuaStack) -> Seq<Val> {
        elements(self.table(lua), self.pos as nat, self.len as nat)
    }

    /// The slots below the current element.
    pub open spec fn base(self, lua: LuaStack) -> Seq<Val> {
        lua@.take(self.top as int)
    }

    fn new(lua: &LuaStack, index: i32, len: usize) -> (r: Self)
        requires
            lua.wf(),
            lua.acceptable(index as int),
            lua.slot(index as int) matches Some(Val::Table(_)) ==> lua.room() >= 1,
        ensures
            r.on(*lua),
            r.index == lua.abs(index as int),
            r.top == lua@.len(),
            r.pos == 0,
            r.len == match lua.slot(index as int) {
                Some(Val::Table(t)) => len,
                _ => 0,
            },
            !r.has_value,
            r.remaining(*lua) == match lua.slot(index as int) {
                Some(Val::Table(t)) => elements(t, 0, len as nat),
                _ => Seq::empty(),
            },
    {
        let top = lua.top();
        let len = if lua.value(index).kind() == LuaType::Table {
            len
        } else {
            0
        };
        let r = LuaArrayCursor {
            index: lua.abs_index(index),
            top,
            pos: 0,
            len,
            has_value: false,
        };
        if len == 0 {
            assert(r.remaining(*lua) =~= Seq::empty());
        }
        r
    }

    /// Goes to the next element and leaves it on top; at the end nothing is left
    /// there.
    pub fn next<'a>(&mut self, lua: &'a mut LuaStack) -> (r: Option<LuaStackValue<'a>>)
        requires
            old(self).on(*old(lua)),
        ensures
            final(self).on(*final(lua)),
            final(lua).same_machine(*old(lua)),
            final(self).index == old(self).index,
            final(self).top == old(self).top,
            final(self).len == old(self).len,
            final(self).base(*final(lua)) == old(self).base(*old(lua)),
            final(self).remaining(*final(lua)) == after_step(old(self).remaining(*old(lua))),
            match first_of(old(self).remaining(*old(lua))) {
                None => {
                    &&& r is None
                    &&& final(self).pos == old(self).pos
                    &&& final(lua)@ == old(self).base(*old(lua))
                },
                Some(v) => {
                    &&& r matches Some(x) && x.wf() && *x.context == *final(lua) && x.index == old(
                        self).top + 1 && x.slot() == Some(v)
                    &&& v == element(old(self).table(*old(lua)), old(self).pos + 1)
                    &&& final(self).pos == old(self).pos + 1
                    &&& final(lua)@ == old(self).base(*old(lua)).push(v)
                },
            },
    {
        let ghost base = self.base(*lua);
        let ghost rest = self.remaining(*lua);
        lua.set_top(self.top);
        assert(lua@ =~= base);
        self.has_value = false;
        if self.pos >= self.len {
            assert(self.base(*lua) =~= base);
            assert(self.remaining(*lua) =~= rest);
            return None;
        }
        assert(base[self.index - 1] == old(lua)@[self.index - 1]);
        self.pos = self.pos + 1;
        let key = LuaValue::Integer(integer64(self.pos as u64));
        let v = match lua.at(self.index) {
            Some(LuaValue::Table(t)) => match t.get(&key) {
                Some(v) => v.duplicate(),
                None => LuaValue::Nil,
            },
            _ => LuaValue::Nil,
        };
        lua.push_value(v);
        self.has_value = true;
        assert(self.base(*lua) =~= base);
        assert(self.table(*lua) == old(self).table(*old(lua)));
        assert(self.remaining(*lua) =~= rest.skip(1));
        let context: &'a LuaStack = &*lua;
        Some(context.value(self.top + 1))
    }

    /// Opens a walk over the sequence at an index while this one is under way.
    pub fn nested_array(&self, lua: &LuaStack, index: i32) -> (r: LuaArrayCursor)
        requires
            self.on(*lua),
            lua.acceptable(index as int),
            lua.slot(index as int) matches Some(Val::Table(_)) ==> lua.room() >= 1,
        ensures
            r.on(*lua),
            r.index == lua.abs(index as int),
            r.top == lua@.len(),
            r.pos == 0,
            r.len == match lua.slot(index as int) {
                Some(Val::Table(t)) => strict_len(t),
                _ => 0,
            },
            !r.has_value,
            r.remaining(*lua) == match lua.slot(index as int) {
                Some(Val::Table(t)) => elements(t, 0, strict_len(t)),
                _ => Seq::empty(),
            },
    {
        let len = lua.array_len(index);
        LuaArrayCursor::new(lua, index, len)
    }

    /// Ends the walk, wherever it is: the stack is as it was before.
    pub fn close(self, lua: &mut LuaStack)
        requires
            self.on(*old(lua)),
        ensures
            final(lua).wf(),
            final(lua).same_machine(*old(lua)),
            final(lua)@ == self.base(*old(lua)),
    {
        lua.set_top(self.top);
        assert(lua@ =~= self.base(*old(lua)));
    }
}

} // verus!
