//! Lua values as plain data.
//!
//! The virtual machine hands its values over as trees of [`LuaValue`] and takes
//! trees back. A value holds what the modules read of it: a float its bit
//! pattern and its decimal text, a string its bytes and the integer that the
//! machine coerces it to, a table its sequence part, its other entries in
//! traversal order, what its metatable adds and where the machine keeps it.
use vstd::prelude::*;

use crate::number::{float_integer, is_nan, is_nan_spec, number_to_integer, signed64};

verus! {

/// The kinds of Lua value; `Absent` is an empty stack slot.
#[derive(Clone, Copy, Debug, PartialEq, Eq, Structural)]
pub enum LuaType {
    Absent,
    Nil,
    Boolean,
    LightUserData,
    Number,
    String,
    Table,
    Function,
    UserData,
    Thread,
    Integer,
}

/// A float: its bit pattern, and the decimal text it prints as. The machine
/// fills the text in; a float that a module makes itself has none.
#[derive(Debug, PartialEq)]
pub struct LuaNumber {
    pub bits: u64,
    pub text: String,
}

/// A byte string, and the integer that the machine's string coercion makes of
/// it, if any. A string that a module makes itself has no coercion.
#[derive(Debug, PartialEq)]
pub struct LuaString {
    pub bytes: Vec<u8>,
    pub integer: Option<i64>,
}

/// How a `__pairs` walk failed: in the metamethod or in the iterator, with the
/// bytes of the error object where that is a string.
#[derive(Debug, PartialEq)]
pub enum PairsFailure {
    Call(Option<Vec<u8>>),
    Iterator(Option<Vec<u8>>),
}

/// What a `__pairs` metamethod yields: entries, and the failure that cut the
/// walk short, if any.
#[derive(Debug, PartialEq)]
pub struct MetaPairs {
    pub entries: Vec<(LuaValue, LuaValue)>,
    pub failure: Option<PairsFailure>,
}

/// A table: the values at keys `1..=n` where `n` is its raw length (holes are
/// nil), then every other entry in traversal order.
#[derive(Debug, PartialEq)]
pub struct TableValue {
    pub array: Vec<LuaValue>,
    pub hash: Vec<(LuaValue, LuaValue)>,
    /// What the `__pairs` metafield yields, where there is one.
    pub pairs: Option<MetaPairs>,
    /// Whether the metatable has an `__object` field.
    pub object: bool,
    /// Where the machine keeps the table, by which it is told from every other;
    /// zero for a new one, which the machine does not have yet.
    pub address: u64,
}

/// A Lua value. Pointers are addresses; a full userdata also has its size in
/// bytes.
#[derive(Debug, PartialEq)]
pub enum LuaValue {
    Nil,
    Boolean(bool),
    LightUserData(u64),
    Number(LuaNumber),
    Integer(i64),
    String(LuaString),
    Table(TableValue),
    Function(u64),
    UserData(u64, usize),
    Thread(u64),
}

/// Model of [`PairsFailure`].
pub enum Failure {
    Call(Option<Seq<u8>>),
    Iterator(Option<Seq<u8>>),
}

/// Model of [`MetaPairs`].
pub struct Walk {
    pub entries: Seq<(Val, Val)>,
    pub failure: Option<Failure>,
}

/// Model of [`TableValue`].
pub struct Tab {
    pub array: Seq<Val>,
    pub hash: Seq<(Val, Val)>,
    pub pairs: Option<Walk>,
    pub object: bool,
    pub address: u64,
}

/// Model of [`LuaValue`].
pub enum Val {
    Nil,
    Bool(bool),
    Light(u64),
    Num(u64, Seq<char>),
    Int(i64),
    Str(Seq<u8>, Option<i64>),
    Table(Tab),
    Func(u64),
    User(u64, usize),
    Thread(u64),
}

pub open spec fn view_bytes(b: Option<Vec<u8>>) -> Option<Seq<u8>> {
    match b {
        Some(v) => Some(v@),
        None => None,
    }
}

pub open spec fn view_failure(f: PairsFailure) -> Failure {
    match f {
        PairsFailure::Call(b) => Failure::Call(view_bytes(b)),
        PairsFailure::Iterator(b) => Failure::Iterator(view_bytes(b)),
    }
}

pub open spec fn view_value(v: LuaValue) -> Val
    decreases v,
{
    match v {
        LuaValue::Nil => Val::Nil,
        LuaValue::Boolean(b) => Val::Bool(b),
        LuaValue::LightUserData(p) => Val::Light(p),
        LuaValue::Number(n) => Val::Num(n.bits, n.text@),
        LuaValue::Integer(i) => Val::Int(i),
        LuaValue::String(s) => Val::Str(s.bytes@, s.integer),
        LuaValue::Table(t) => Val::Table(view_table(t)),
        LuaValue::Function(p) => Val::Func(p),
        LuaValue::UserData(p, n) => Val::User(p, n),
        LuaValue::Thread(p) => Val::Thread(p),
    }
}

pub open spec fn view_table(t: TableValue) -> Tab
    decreases t,
{
    Tab {
        array: view_list(t.array),
        hash: view_entries(t.hash),
        pairs: match t.pairs {
            Some(w) => Some(view_walk(w)),
            None => None,
        },
        object: t.object,
        address: t.address,
    }
}

pub open spec fn view_walk(w: MetaPairs) -> Walk
    decreases w,
{
    Walk {
        entries: view_entries(w.entries),
        failure: match w.failure {
            Some(f) => Some(view_failure(f)),
            None => None,
        },
    }
}

pub open spec fn view_list(vs: Vec<LuaValue>) -> Seq<Val>
    decreases vs,
{
    Seq::new(
        vs@.len(),
        |i: int|
            if 0 <= i < vs@.len() {
                view_value(vs@[i])
            } else {
                Val::Nil
            },
    )
}

pub open spec fn view_entries(es: Vec<(LuaValue, LuaValue)>) -> Seq<(Val, Val)>
    decreases es,
{
    Seq::new(
        es@.len(),
        |i: int|
            if 0 <= i < es@.len() {
                (view_value(es@[i].0), view_value(es@[i].1))
            } else {
                (Val::Nil, Val::Nil)
            },
    )
}

impl View for LuaValue {
    type V = Val;

    open spec fn view(&self) -> Val {
        view_value(*self)
    }
}

impl View for TableValue {
    type V = Tab;

    open spec fn view(&self) -> Tab {
        view_table(*self)
    }
}

impl View for MetaPairs {
    type V = Walk;

    open spec fn view(&self) -> Walk {
        view_walk(*self)
    }
}

/// The kind of a value.
pub open spec fn kind_of(v: Val) -> LuaType {
    match v {
        Val::Nil => LuaType::Nil,
        Val::Bool(_) => LuaType::Boolean,
        Val::Light(_) => LuaType::LightUserData,
        Val::Num(_, _) => LuaType::Number,
        Val::Int(_) => LuaType::Integer,
        Val::Str(_, _) => LuaType::String,
        Val::Table(_) => LuaType::Table,
        Val::Func(_) => LuaType::Function,
        Val::User(_, _) => LuaType::UserData,
        Val::Thread(_) => LuaType::Thread,
    }
}

/// The name of a kind in messages; integers and floats are both numbers.
pub open spec fn kind_name(t: LuaType) -> Seq<char> {
    match t {
        LuaType::Absent => "none"@,
        LuaType::Nil => "nil"@,
        LuaType::Boolean => "boolean"@,
        LuaType::LightUserData => "lightuserdata"@,
        LuaType::Number | LuaType::Integer => "number"@,
        LuaType::String => "string"@,
        LuaType::Table => "table"@,
        LuaType::Function => "function"@,
        LuaType::UserData => "userdata"@,
        LuaType::Thread => "thread"@,
    }
}

/// Raw equality of keys. Tables, like functions, are equal where they are one
/// object; a new table is none of those that are there.
pub open spec fn raw_equal(a: Val, b: Val) -> bool {
    match (a, b) {
        (Val::Bool(x), Val::Bool(y)) => x == y,
        (Val::Light(x), Val::Light(y)) => x == y,
        (Val::Num(x, _), Val::Num(y, _)) => x == y,
        (Val::Int(x), Val::Int(y)) => x == y,
        (Val::Str(x, _), Val::Str(y, _)) => x == y,
        (Val::Table(x), Val::Table(y)) => x.address != 0 && x.address == y.address,
        (Val::Func(x), Val::Func(y)) => x == y,
        (Val::User(x, _), Val::User(y, _)) => x == y,
        (Val::Thread(x), Val::Thread(y)) => x == y,
        _ => false,
    }
}

/// The form in which a key is stored: a float that equals an integer is that
/// integer.
pub open spec fn stored_key(k: Val) -> Val {
    match k {
        Val::Num(bits, _) => match float_integer(bits) {
            Some(n) => Val::Int(n),
            None => k,
        },
        _ => k,
    }
}

/// Whether a value can be a key at all.
pub open spec fn is_key(k: Val) -> bool {
    &&& !(k is Nil)
    &&& !(k matches Val::Num(bits, _) && is_nan_spec(bits))
}

/// The place of a key among entries, or -1.
pub open spec fn find(entries: Seq<(Val, Val)>, k: Val) -> int
    decreases entries.len(),
{
    if entries.len() == 0 {
        -1
    } else if find(entries.drop_last(), k) >= 0 {
        find(entries.drop_last(), k)
    } else if raw_equal(entries.last().0, k) {
        entries.len() - 1
    } else {
        -1
    }
}

impl Tab {
    /// The table without entries or metatable.
    pub open spec fn empty() -> Tab {
        Tab { array: Seq::empty(), hash: Seq::empty(), pairs: None, object: false, address: 0 }
    }

    /// Whether a key lies in the sequence part.
    pub open spec fn in_array(self, k: Val) -> bool {
        k matches Val::Int(i) && 1 <= i <= self.array.len()
    }

    /// The value at a key, nil where there is none.
    pub open spec fn get(self, key: Val) -> Val {
        let k = stored_key(key);
        if self.in_array(k) {
            self.array[k->Int_0 - 1]
        } else if find(self.hash, k) >= 0 {
            self.hash[find(self.hash, k)].1
        } else {
            Val::Nil
        }
    }

    /// The table with a key set; nil removes the entry.
    pub open spec fn set(self, key: Val, v: Val) -> Tab {
        let k = stored_key(key);
        let j = find(self.hash, k);
        if self.in_array(k) {
            Tab { array: self.array.update(k->Int_0 - 1, v), ..self }
        } else if v is Nil {
            if j >= 0 {
                Tab { hash: self.hash.remove(j), ..self }
            } else {
                self
            }
        } else if j >= 0 {
            Tab { hash: self.hash.update(j, (self.hash[j].0, v)), ..self }
        } else {
            Tab { hash: self.hash.push((k, v)), ..self }
        }
    }

    /// The same entries with the sequence part up to a border: no trailing nil,
    /// and no next element among the other entries.
    pub open spec fn settled(self) -> Tab {
        Tab { array: trimmed(self.array), ..self }.absorbed()
    }

    /// Moves following elements out of the other entries into the sequence part.
    pub open spec fn absorbed(self) -> Tab
        decreases self.hash.len(),
    {
        let j = find(self.hash, Val::Int((self.array.len() + 1) as i64));
        if 0 <= j < self.hash.len() && self.array.len() < i64::MAX {
            Tab {
                array: self.array.push(self.hash[j].1),
                hash: self.hash.remove(j),
                ..self
            }.absorbed()
        } else {
            self
        }
    }

    /// Every entry in traversal order: the sequence part without its holes, then
    /// the rest.
    pub open spec fn entries(self) -> Seq<(Val, Val)> {
        array_entries(self.array) + self.hash
    }
}

/// The table of some sequence elements.
pub open spec fn listed(elements: Seq<Val>) -> Val {
    Val::Table(Tab { array: elements, ..Tab::empty() }.settled())
}

/// The entries of a sequence part, holes left out.
pub open spec fn array_entries(array: Seq<Val>) -> Seq<(Val, Val)>
    decreases array.len(),
{
    if array.len() == 0 {
        Seq::empty()
    } else if array.last() is Nil {
        array_entries(array.drop_last())
    } else {
        array_entries(array.drop_last()).push((Val::Int(signed64(array.len()) as i64), array.last()))
    }
}

/// A sequence without its trailing nils.
pub open spec fn trimmed(array: Seq<Val>) -> Seq<Val>
    decreases array.len(),
{
    if array.len() > 0 && array.last() is Nil {
        trimmed(array.drop_last())
    } else {
        array
    }
}

/// `find` names an entry with the key, or says that there is none.
pub proof fn lemma_find(entries: Seq<(Val, Val)>, k: Val)
    ensures
        -1 <= find(entries, k) < entries.len(),
        find(entries, k) >= 0 ==> raw_equal(entries[find(entries, k)].0, k),
        find(entries, k) < 0 ==> forall|i: int|
            0 <= i < entries.len() ==> !raw_equal(#[trigger] entries[i].0, k),
        forall|i: int|
            0 <= i < find(entries, k) ==> !raw_equal(#[trigger] entries[i].0, k),
    decreases entries.len(),
{
    if entries.len() > 0 {
        let front = entries.drop_last();
        lemma_find(front, k);
        assert(forall|i: int| 0 <= i < front.len() ==> #[trigger] entries[i] == front[i]);
    }
}

/// Pushing onto a vector of values pushes onto its model.
pub proof fn lemma_list_push(before: Vec<LuaValue>, after: Vec<LuaValue>, v: LuaValue)
    requires
        after@ == before@.push(v),
    ensures
        view_list(after) == view_list(before).push(v@),
{
    assert(view_list(after) =~= view_list(before).push(v@));
}

/// Pushing onto a vector of entries pushes onto its model.
pub proof fn lemma_entries_push(
    before: Vec<(LuaValue, LuaValue)>,
    after: Vec<(LuaValue, LuaValue)>,
    k: LuaValue,
    v: LuaValue,
)
    requires
        after@ == before@.push((k, v)),
    ensures
        view_entries(after) == view_entries(before).push((k@, v@)),
{
    assert(view_entries(after) =~= view_entries(before).push((k@, v@)));
}

impl LuaType {
    /// The name of the kind in messages.
    pub fn name(self) -> (r: &'static str)
        ensures
            r@ == kind_name(self),
    {
        match self {
            LuaType::Absent => "none",
            LuaType::Nil => "nil",
            LuaType::Boolean => "boolean",
            LuaType::LightUserData => "lightuserdata",
            LuaType::Number | LuaType::Integer => "number",
            LuaType::String => "string",
            LuaType::Table => "table",
            LuaType::Function => "function",
            LuaType::UserData => "userdata",
            LuaType::Thread => "thread",
        }
    }
}

impl LuaString {
    /// A string without a coercion.
    pub fn new(bytes: Vec<u8>) -> (r: LuaString)
        ensures
            r.bytes == bytes,
            r.integer is None,
    {
        LuaString { bytes, integer: None }
    }
}

impl LuaNumber {
    /// A float without text.
    pub fn new(bits: u64) -> (r: LuaNumber)
        ensures
            r.bits == bits,
            r.text@ == Seq::<char>::empty(),
    {
        LuaNumber { bits, text: String::new() }
    }
}

/// A copy of a byte string.
pub fn copy_bytes(bytes: &[u8]) -> (r: Vec<u8>)
    ensures
        r@ == bytes@,
{
    let mut r: Vec<u8> = Vec::new();
    r.extend_from_slice(bytes);
    assert(r@ =~= bytes@);
    r
}

/// Whether two byte strings are equal.
pub fn same_bytes(a: &[u8], b: &[u8]) -> (r: bool)
    ensures
        r == (a@ == b@),
{
    if a.len() != b.len() {
        return false;
    }
    let mut i: usize = 0;
    while i < a.len()
        invariant
            a@.len() == b@.len(),
            i <= a@.len(),
            a@.take(i as int) =~= b@.take(i as int),
        decreases a@.len() - i,
    {
        if a[i] != b[i] {
            assert(a@[i as int] != b@[i as int]);
            return false;
        }
        assert(a@.take(i + 1) =~= a@.take(i as int).push(a@[i as int]));
        assert(b@.take(i + 1) =~= b@.take(i as int).push(b@[i as int]));
        i = i + 1;
    }
    assert(a@.take(i as int) =~= a@);
    assert(b@.take(i as int) =~= b@);
    true
}

impl LuaValue {
    /// A string value.
    pub fn from_bytes(bytes: Vec<u8>) -> (r: LuaValue)
        ensures
            r@ == Val::Str(bytes@, None),
    {
        LuaValue::String(LuaString::new(bytes))
    }

    /// A float value.
    pub fn from_bits(bits: u64) -> (r: LuaValue)
        ensures
            r@ == Val::Num(bits, Seq::empty()),
    {
        LuaValue::Number(LuaNumber::new(bits))
    }

    /// The kind of the value.
    pub fn kind(&self) -> (r: LuaType)
        ensures
            r == kind_of(self@),
    {
        match self {
            LuaValue::Nil => LuaType::Nil,
            LuaValue::Boolean(_) => LuaType::Boolean,
            LuaValue::LightUserData(_) => LuaType::LightUserData,
            LuaValue::Number(_) => LuaType::Number,
            LuaValue::Integer(_) => LuaType::Integer,
            LuaValue::String(_) => LuaType::String,
            LuaValue::Table(_) => LuaType::Table,
            LuaValue::Function(_) => LuaType::Function,
            LuaValue::UserData(_, _) => LuaType::UserData,
            LuaValue::Thread(_) => LuaType::Thread,
        }
    }

    /// Whether the value is nil.
    pub fn is_nil(&self) -> (r: bool)
        ensures
            r == (self@ is Nil),
    {
        match self {
            LuaValue::Nil => true,
            _ => false,
        }
    }

    /// Whether the value can be a table key.
    pub fn is_key(&self) -> (r: bool)
        ensures
            r == is_key(self@),
    {
        match self {
            LuaValue::Nil => false,
            LuaValue::Number(n) => !is_nan(n.bits),
            _ => true,
        }
    }

    /// The key in the form in which tables store it.
    pub fn into_key(self) -> (r: LuaValue)
        ensures
            r@ == stored_key(self@),
    {
        match self {
            LuaValue::Number(n) => match number_to_integer(n.bits) {
                Some(i) => LuaValue::Integer(i),
                None => LuaValue::Number(n),
            },
            other => other,
        }
    }

    /// Raw equality of keys.
    pub fn raw_equals(&self, other: &LuaValue) -> (r: bool)
        ensures
            r == raw_equal(self@, other@),
    {
        match (self, other) {
            (LuaValue::Boolean(x), LuaValue::Boolean(y)) => *x == *y,
            (LuaValue::LightUserData(x), LuaValue::LightUserData(y)) => *x == *y,
            (LuaValue::Number(x), LuaValue::Number(y)) => x.bits == y.bits,
            (LuaValue::Integer(x), LuaValue::Integer(y)) => *x == *y,
            (LuaValue::String(x), LuaValue::String(y)) => same_bytes(
                x.bytes.as_slice(),
                y.bytes.as_slice(),
            ),
            (LuaValue::Table(x), LuaValue::Table(y)) => x.address != 0 && x.address == y.address,
            (LuaValue::Function(x), LuaValue::Function(y)) => *x == *y,
            (LuaValue::UserData(x, _), LuaValue::UserData(y, _)) => *x == *y,
            (LuaValue::Thread(x), LuaValue::Thread(y)) => *x == *y,
            _ => false,
        }
    }

    /// A copy of the whole tree.
    pub fn duplicate(&self) -> (r: LuaValue)
        ensures
            r@ == self@,
        decreases self,
    {
        match self {
            LuaValue::Nil => LuaValue::Nil,
            LuaValue::Boolean(b) => LuaValue::Boolean(*b),
            LuaValue::LightUserData(p) => LuaValue::LightUserData(*p),
            LuaValue::Number(n) => LuaValue::Number(
                LuaNumber { bits: n.bits, text: n.text.clone() },
            ),
            LuaValue::Integer(i) => LuaValue::Integer(*i),
            LuaValue::String(s) => LuaValue::String(
                LuaString { bytes: copy_bytes(s.bytes.as_slice()), integer: s.integer },
            ),
            LuaValue::Table(t) => LuaValue::Table(t.duplicate()),
            LuaValue::Function(p) => LuaValue::Function(*p),
            LuaValue::UserData(p, n) => LuaValue::UserData(*p, *n),
            LuaValue::Thread(p) => LuaValue::Thread(*p),
        }
    }
}

fn duplicate_entries(es: &Vec<(LuaValue, LuaValue)>) -> (r: Vec<(LuaValue, LuaValue)>)
    ensures
        view_entries(r) == view_entries(*es),
    decreases es,
{
    let mut r: Vec<(LuaValue, LuaValue)> = Vec::new();
    let mut i: usize = 0;
    while i < es.len()
        invariant
            i <= es@.len(),
            view_entries(r) =~= view_entries(*es).take(i as int),
        decreases es@.len() - i,
    {
        let k = es[i].0.duplicate();
        let v = es[i].1.duplicate();
        let ghost before = r;
        r.push((k, v));
        proof {
            lemma_entries_push(before, r, k, v);
        }
        i = i + 1;
    }
    r
}

fn duplicate_failure(f: &PairsFailure) -> (r: PairsFailure)
    ensures
        view_failure(r) == view_failure(*f),
{
    match f {
        PairsFailure::Call(Some(b)) => PairsFailure::Call(Some(copy_bytes(b.as_slice()))),
        PairsFailure::Call(None) => PairsFailure::Call(None),
        PairsFailure::Iterator(Some(b)) => PairsFailure::Iterator(Some(copy_bytes(b.as_slice()))),
        PairsFailure::Iterator(None) => PairsFailure::Iterator(None),
    }
}

fn duplicate_list(vs: &Vec<LuaValue>) -> (r: Vec<LuaValue>)
    ensures
        view_list(r) == view_list(*vs),
    decreases vs,
{
    let mut r: Vec<LuaValue> = Vec::new();
    let mut i: usize = 0;
    while i < vs.len()
        invariant
            i <= vs@.len(),
            view_list(r) =~= view_list(*vs).take(i as int),
        decreases vs@.len() - i,
    {
        let v = vs[i].duplicate();
        let ghost before = r;
        r.push(v);
        proof {
            lemma_list_push(before, r, v);
        }
        i = i + 1;
    }
    r
}

impl MetaPairs {
    /// A copy of the whole walk.
    fn duplicate(&self) -> (r: MetaPairs)
        ensures
            r@ == self@,
        decreases self,
    {
        MetaPairs {
            entries: duplicate_entries(&self.entries),
            failure: match &self.failure {
                Some(f) => Some(duplicate_failure(f)),
                None => None,
            },
        }
    }
}

impl TableValue {
    /// A table without entries or metatable.
    pub fn new() -> (r: TableValue)
        ensures
            r@ == Tab::empty(),
    {
        let r = TableValue {
            array: Vec::new(),
            hash: Vec::new(),
            pairs: None,
            object: false,
            address: 0,
        };
        assert(r@.array =~= Seq::empty());
        assert(r@.hash =~= Seq::empty());
        r
    }

    /// A copy of the whole tree.
    pub fn duplicate(&self) -> (r: TableValue)
        ensures
            r@ == self@,
        decreases self,
    {
        TableValue {
            array: duplicate_list(&self.array),
            hash: duplicate_entries(&self.hash),
            pairs: match &self.pairs {
                Some(w) => Some(w.duplicate()),
                None => None,
            },
            object: self.object,
            address: self.address,
        }
    }

    /// The raw length.
    pub fn raw_len(&self) -> (r: usize)
        ensures
            r == self@.array.len(),
    {
        self.array.len()
    }

    /// The place of a stored key among the entries outside the sequence part.
    fn position(&self, k: &LuaValue) -> (r: Option<usize>)
        ensures
            match r {
                Some(j) => find(self@.hash, k@) == j && j < self@.hash.len(),
                None => find(self@.hash, k@) < 0,
            },
    {
        let ghost h = self@.hash;
        let mut j: usize = 0;
        while j < self.hash.len()
            invariant
                h == self@.hash,
                j <= h.len(),
                forall|i: int| 0 <= i < j ==> !raw_equal(#[trigger] h[i].0, k@),
            decreases h.len() - j,
        {
            if self.hash[j].0.raw_equals(k) {
                proof {
                    lemma_find(h, k@);
                    assert(raw_equal(h[j as int].0, k@));
                }
                return Some(j);
            }
            j = j + 1;
        }
        proof {
            lemma_find(h, k@);
        }
        None
    }

    /// The value at a key, if there is one.
    pub fn get(&self, k: &LuaValue) -> (r: Option<&LuaValue>)
        requires
            stored_key(k@) == k@,
        ensures
            match r {
                Some(v) => v@ == self@.get(k@),
                None => self@.get(k@) is Nil,
            },
    {
        if let LuaValue::Integer(i) = k {
            if *i >= 1 && (*i as u64) <= self.array.len() as u64 {
                return Some(&self.array[(*i - 1) as usize]);
            }
        }
        match self.position(k) {
            Some(j) => Some(&self.hash[j].1),
            None => None,
        }
    }

    /// Sets a key; nil removes the entry.
    pub fn set(&mut self, key: LuaValue, v: LuaValue)
        ensures
            final(self)@ == old(self)@.set(key@, v@),
    {
        let k = key.into_key();
        if let LuaValue::Integer(i) = k {
            if i >= 1 && (i as u64) <= self.array.len() as u64 {
                self.array.set((i - 1) as usize, v);
                assert(self@.array =~= old(self)@.array.update(i - 1, v@));
                return;
            }
        }
        match self.position(&k) {
            Some(j) => {
                let (old_key, _old_value) = self.hash.remove(j);
                if v.is_nil() {
                    assert(self@.hash =~= old(self)@.hash.remove(j as int));
                } else {
                    self.hash.insert(j, (old_key, v));
                    assert(self@.hash =~= old(self)@.hash.update(
                        j as int,
                        (old(self)@.hash[j as int].0, v@),
                    ));
                }
            },
            None => {
                if !v.is_nil() {
                    self.hash.push((k, v));
                    assert(self@.hash =~= old(self)@.hash.push((k@, v@)));
                }
            },
        }
    }

    /// Brings the sequence part to a border.
    pub fn settle(&mut self)
        ensures
            final(self)@ == old(self)@.settled(),
    {
        let ghost start = self@;
        while self.array.len() > 0 && self.array[self.array.len() - 1].is_nil()
            invariant
                trimmed(self@.array) == trimmed(start.array),
                self@.hash == start.hash,
                self@.pairs == start.pairs,
                self@.object == start.object,
                self@.address == start.address,
            ensures
                self@.array == trimmed(start.array),
            decreases self.array.len(),
        {
            let ghost before = self@.array;
            let _dropped = self.array.pop();
            assert(self@.array =~= before.drop_last());
        }
        let ghost mid = self@;
        loop
            invariant
                self@.absorbed() == mid.absorbed(),
            ensures
                self@ == mid.absorbed(),
            decreases self.hash.len(),
        {
            let n = self.array.len() as u64;
            if n >= i64::MAX as u64 {
                break;
            }
            let k = LuaValue::Integer((n + 1) as i64);
            match self.position(&k) {
                Some(j) => {
                    let ghost before = self@;
                    let (_key, v) = self.hash.remove(j);
                    self.array.push(v);
                    assert(self@.array =~= before.array.push(before.hash[j as int].1));
                    assert(self@.hash =~= before.hash.remove(j as int));
                },
                None => {
                    break;
                },
            }
        }
    }
}

/// What an attempt leaves on the stack that put nothing there.
pub fn nothing() -> (r: Vec<LuaValue>)
    ensures
        view_list(r) == Seq::<Val>::empty(),
{
    let r: Vec<LuaValue> = Vec::new();
    assert(view_list(r) =~= Seq::empty());
    r
}

/// What an attempt leaves on the stack that stopped inside a table: the table,
/// then what was left above it.
pub fn above_table(t: TableValue, left: Vec<LuaValue>) -> (r: Vec<LuaValue>)
    ensures
        view_list(r) == seq![Val::Table(t@)] + view_list(left),
{
    let mut r = left;
    r.insert(0, LuaValue::Table(t));
    assert(view_list(r) =~= seq![Val::Table(t@)] + view_list(left));
    r
}

/// What an attempt leaves on the stack that stopped at the value of a key.
pub fn above_key(t: TableValue, key: LuaValue, left: Vec<LuaValue>) -> (r: Vec<LuaValue>)
    ensures
        view_list(r) == seq![Val::Table(t@), key@] + view_list(left),
{
    let mut rest = left;
    rest.insert(0, key);
    assert(view_list(rest) =~= seq![key@] + view_list(left));
    let r = above_table(t, rest);
    assert(view_list(r) =~= seq![Val::Table(t@), key@] + view_list(left));
    r
}

} // verus!
