//! Schemas for Lua tables: loading definitions.
//!
//! A schema is a list of named protos; a proto has named fields; a field holds a
//! primitive or another proto, once, in a sequence, or in a map. Types are
//! resolved when the schema is loaded, so that a loaded schema has no dangling
//! reference.
use vstd::prelude::*;
use vstd::string::*;

use crate::laux::LuaStackValue;
use crate::text::same_text;
use crate::value::{kind_of, LuaType, LuaValue, Val};

verus! {

/// A primitive type. Aliases of one width share a variant.
#[derive(Clone, Copy, Debug, PartialEq, Eq, Structural)]
pub enum Prim {
    Int32,
    Uint32,
    Int64,
    Uint64,
    Float,
    Bool,
    Str,
}

/// The primitive that a type name stands for.
pub open spec fn prim_of(name: Seq<char>) -> Option<Prim> {
    if name == "int32"@ || name == "sint32"@ || name == "sfixed32"@ {
        Some(Prim::Int32)
    } else if name == "uint32"@ || name == "fixed32"@ {
        Some(Prim::Uint32)
    } else if name == "int64"@ || name == "sint64"@ || name == "sfixed64"@ {
        Some(Prim::Int64)
    } else if name == "uint64"@ || name == "fixed64"@ {
        Some(Prim::Uint64)
    } else if name == "float"@ || name == "double"@ {
        Some(Prim::Float)
    } else if name == "bool"@ {
        Some(Prim::Bool)
    } else if name == "string"@ || name == "bytes"@ {
        Some(Prim::Str)
    } else {
        None
    }
}

/// The name of a primitive in messages.
pub open spec fn prim_name(p: Prim) -> Seq<char> {
    match p {
        Prim::Int32 => "int32"@,
        Prim::Uint32 => "uint32"@,
        Prim::Int64 => "int64"@,
        Prim::Uint64 => "uint64"@,
        Prim::Float => "float"@,
        Prim::Bool => "bool"@,
        Prim::Str => "string"@,
    }
}

/// Whether a value of a kind, with its integer where it is one, is of a
/// primitive type. Integers are checked for sign and range.
pub open spec fn kind_accepted(p: Prim, kind: LuaType, integer: Option<i64>) -> bool {
    match p {
        Prim::Int32 => integer matches Some(n) && i32::MIN <= n <= i32::MAX,
        Prim::Uint32 => integer matches Some(n) && 0 <= n <= u32::MAX,
        Prim::Int64 => kind is Integer,
        Prim::Uint64 => integer matches Some(n) && 0 <= n,
        Prim::Float => kind is Number || kind is Integer,
        Prim::Bool => kind is Boolean,
        Prim::Str => kind is String,
    }
}

/// Whether a value is of a primitive type.
pub open spec fn accepted(p: Prim, v: Val) -> bool {
    kind_accepted(
        p,
        kind_of(v),
        match v {
            Val::Int(n) => Some(n),
            _ => None,
        },
    )
}

impl Prim {
    /// The primitive that a type name stands for.
    pub fn parse(name: &str) -> (r: Option<Prim>)
        ensures
            r == prim_of(name@),
    {
        if same_text(name, "int32") || same_text(name, "sint32") || same_text(name, "sfixed32") {
            Some(Prim::Int32)
        } else if same_text(name, "uint32") || same_text(name, "fixed32") {
            Some(Prim::Uint32)
        } else if same_text(name, "int64") || same_text(name, "sint64") || same_text(
            name,
            "sfixed64",
        ) {
            Some(Prim::Int64)
        } else if same_text(name, "uint64") || same_text(name, "fixed64") {
            Some(Prim::Uint64)
        } else if same_text(name, "float") || same_text(name, "double") {
            Some(Prim::Float)
        } else if same_text(name, "bool") {
            Some(Prim::Bool)
        } else if same_text(name, "string") || same_text(name, "bytes") {
            Some(Prim::Str)
        } else {
            None
        }
    }

    /// The name of the primitive in messages.
    pub fn name(self) -> (r: &'static str)
        ensures
            r@ == prim_name(self),
    {
        match self {
            Prim::Int32 => "int32",
            Prim::Uint32 => "uint32",
            Prim::Int64 => "int64",
            Prim::Uint64 => "uint64",
            Prim::Float => "float",
            Prim::Bool => "bool",
            Prim::Str => "string",
        }
    }

    /// Whether a value of a kind, with its integer where it is one, is of the
    /// type.
    pub fn accepts_kind(self, kind: LuaType, integer: Option<i64>) -> (r: bool)
        ensures
            r == kind_accepted(self, kind, integer),
    {
        match self {
            Prim::Int32 => match integer {
                Some(n) => n >= i32::MIN as i64 && n <= i32::MAX as i64,
                None => false,
            },
            Prim::Uint32 => match integer {
                Some(n) => n >= 0 && n <= u32::MAX as i64,
                None => false,
            },
            Prim::Int64 => kind == LuaType::Integer,
            Prim::Uint64 => match integer {
                Some(n) => n >= 0,
                None => false,
            },
            Prim::Float => kind == LuaType::Number || kind == LuaType::Integer,
            Prim::Bool => kind == LuaType::Boolean,
            Prim::Str => kind == LuaType::String,
        }
    }

    /// Whether a value is of the type.
    pub fn accepts(self, v: &LuaValue) -> (r: bool)
        ensures
            r == accepted(self, v@),
    {
        let integer: Option<i64> = match v {
            LuaValue::Integer(n) => Some(*n),
            _ => None,
        };
        self.accepts_kind(v.kind(), integer)
    }

    /// Whether a value on the stack is of the type.
    pub fn accepts_stack(self, value: LuaStackValue<'_>) -> (r: bool)
        requires
            value.wf(),
        ensures
            r == (value.slot() matches Some(v) && accepted(self, v)),
    {
        self.accepts_kind(value.kind(), value.as_integer())
    }
}

/// What a field holds: a primitive, or the proto at a place of the schema.
#[derive(Clone, Copy, Debug, PartialEq, Eq, Structural)]
pub enum ValueType {
    Prim(Prim),
    Ref(u32),
}

/// How a field holds its values.
#[derive(Clone, Copy, Debug, PartialEq, Eq, Structural)]
pub enum Container {
    /// One value.
    Scalar,
    /// A sequence of values.
    Array,
    /// Values under primitive keys.
    Object { key: Prim },
}

/// A field of a proto.
#[derive(Debug)]
pub struct Field {
    pub name: String,
    pub container: Container,
    pub value: ValueType,
}

/// A named table layout.
#[derive(Debug)]
pub struct Proto {
    pub name: String,
    /// Whether the table as a whole is the value of the field `data`.
    pub wrapper: bool,
    /// The fields; no name occurs twice.
    pub fields: Vec<Field>,
}

/// A loaded schema; no proto name occurs twice.
#[derive(Debug)]
pub struct Schema {
    pub protos: Vec<Proto>,
}

/// Model of [`Field`].
pub struct FieldDef {
    pub name: Seq<char>,
    pub container: Container,
    pub value: ValueType,
}

/// Model of [`Proto`].
pub struct ProtoDef {
    pub name: Seq<char>,
    pub wrapper: bool,
    pub fields: Seq<FieldDef>,
}

impl View for Field {
    type V = FieldDef;

    open spec fn view(&self) -> FieldDef {
        FieldDef { name: self.name@, container: self.container, value: self.value }
    }
}

impl View for Proto {
    type V = ProtoDef;

    open spec fn view(&self) -> ProtoDef {
        ProtoDef {
            name: self.name@,
            wrapper: self.wrapper,
            fields: self.fields@.map_values(|f: Field| f@),
        }
    }
}

impl View for Schema {
    type V = Seq<ProtoDef>;

    open spec fn view(&self) -> Seq<ProtoDef> {
        self.protos@.map_values(|p: Proto| p@)
    }
}

/// The place of a field, or -1.
pub open spec fn field_place(fields: Seq<FieldDef>, name: Seq<char>) -> int
    decreases fields.len(),
{
    if fields.len() == 0 {
        -1
    } else if fields.last().name == name {
        fields.len() - 1
    } else {
        field_place(fields.drop_last(), name)
    }
}

/// The place of a proto, or -1.
pub open spec fn proto_place(protos: Seq<ProtoDef>, name: Seq<char>) -> int
    decreases protos.len(),
{
    if protos.len() == 0 {
        -1
    } else if protos.last().name == name {
        protos.len() - 1
    } else {
        proto_place(protos.drop_last(), name)
    }
}

/// A schema in which every reference leads somewhere, every wrapper has its
/// field and no name occurs twice.
pub open spec fn sound(protos: Seq<ProtoDef>) -> bool {
    &&& protos.len() <= u32::MAX
    &&& forall|i: int, j: int|
        0 <= i < j < protos.len() ==> (#[trigger] protos[i]).name != (#[trigger] protos[j]).name
    &&& forall|i: int| 0 <= i < protos.len() ==> sound_proto(#[trigger] protos[i], protos.len())
}

/// A proto whose references lead into a schema of `n` protos.
pub open spec fn sound_proto(p: ProtoDef, n: nat) -> bool {
    &&& p.wrapper ==> field_place(p.fields, "data"@) >= 0
    &&& forall|i: int|
        0 <= i < p.fields.len() ==> ((#[trigger] p.fields[i]).value matches ValueType::Ref(k) ==> k
            < n)
    &&& forall|i: int, j: int|
        0 <= i < j < p.fields.len() ==> (#[trigger] p.fields[i]).name != (
        #[trigger] p.fields[j]).name
}

/// `field_place` names a field of the name, the last one, or says that there is
/// none.
pub proof fn lemma_field_place(fields: Seq<FieldDef>, name: Seq<char>)
    ensures
        -1 <= field_place(fields, name) < fields.len(),
        field_place(fields, name) >= 0 ==> fields[field_place(fields, name)].name == name,
        forall|i: int|
            field_place(fields, name) < i < fields.len() ==> (#[trigger] fields[i]).name != name,
    decreases fields.len(),
{
    if fields.len() > 0 && fields.last().name != name {
        let front = fields.drop_last();
        lemma_field_place(front, name);
        assert forall|i: int| field_place(front, name) < i < fields.len() implies (
        #[trigger] fields[i]).name != name by {
            if i < front.len() {
                assert(front[i] == fields[i]);
            }
        }
    }
}

/// `proto_place` names a proto of the name, the last one, or says that there is
/// none.
pub proof fn lemma_proto_place(protos: Seq<ProtoDef>, name: Seq<char>)
    ensures
        -1 <= proto_place(protos, name) < protos.len(),
        proto_place(protos, name) >= 0 ==> protos[proto_place(protos, name)].name == name,
        forall|i: int|
            proto_place(protos, name) < i < protos.len() ==> (#[trigger] protos[i]).name != name,
    decreases protos.len(),
{
    if protos.len() > 0 && protos.last().name != name {
        let front = protos.drop_last();
        lemma_proto_place(front, name);
        assert forall|i: int| proto_place(front, name) < i < protos.len() implies (
        #[trigger] protos[i]).name != name by {
            if i < front.len() {
                assert(front[i] == protos[i]);
            }
        }
    }
}

impl Proto {
    /// The place of a field.
    pub fn find(&self, name: &str) -> (r: Option<usize>)
        ensures
            match r {
                Some(i) => i == field_place(self@.fields, name@) && i < self@.fields.len(),
                None => field_place(self@.fields, name@) < 0,
            },
    {
        find_in(&self.fields, name)
    }
}

/// The place of a field.
pub fn find_in(fields: &Vec<Field>, name: &str) -> (r: Option<usize>)
    ensures
        ({
            let fs = fields@.map_values(|f: Field| f@);
            match r {
                Some(i) => i == field_place(fs, name@) && i < fs.len(),
                None => field_place(fs, name@) < 0,
            }
        }),
{
    let ghost fs = fields@.map_values(|f: Field| f@);
    let mut i: usize = fields.len();
    assert(fs.take(fs.len() as int) =~= fs);
    while i > 0
        invariant
            fs == fields@.map_values(|f: Field| f@),
            i <= fs.len(),
            field_place(fs, name@) == field_place(fs.take(i as int), name@),
        decreases i,
    {
        i = i - 1;
        assert(fs.take(i + 1).drop_last() =~= fs.take(i as int));
        assert(fs.take(i + 1).last() == fields@[i as int]@);
        if same_text(fields[i].name.as_str(), name) {
            return Some(i);
        }
    }
    None
}

impl Schema {
    /// The place of a proto.
    pub fn find(&self, name: &str) -> (r: Option<u32>)
        requires
            self@.len() <= u32::MAX,
        ensures
            match r {
                Some(i) => i == proto_place(self@, name@) && i < self@.len(),
                None => proto_place(self@, name@) < 0,
            },
    {
        let ghost ps = self@;
        let mut i: usize = self.protos.len();
        assert(ps.take(ps.len() as int) =~= ps);
        while i > 0
            invariant
                ps == self@,
                i <= ps.len() <= u32::MAX,
                proto_place(ps, name@) == proto_place(ps.take(i as int), name@),
            decreases i,
        {
            i = i - 1;
            assert(ps.take(i + 1).drop_last() =~= ps.take(i as int));
            assert(ps.take(i + 1).last() == self.protos@[i as int]@);
            if same_text(self.protos[i].name.as_str(), name) {
                return Some(i as u32);
            }
        }
        None
    }
}

} // verus!
