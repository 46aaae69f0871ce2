//! Loading a schema from a table of definitions.
use vstd::prelude::*;
use vstd::string::*;

use crate::cursor::{entries_from, law_walk_meets_every_entry, walk, Place};
use crate::laux::{field_key, LuaStack};
use crate::schema::{
    field_place, lemma_field_place, prim_of, sound, sound_proto, Container, Field, FieldDef, Prim,
    Proto, ProtoDef, Schema, ValueType,
};
use crate::text::{from_utf8_lossy, lossy_text, same_text, starts_with};
use crate::value::{copy_bytes, kind_name, kind_of, LuaValue, Tab, TableValue, Val};

verus! {

/// How a definition says that a field holds its values.
#[derive(Clone, Copy, Debug, PartialEq, Eq, Structural)]
pub enum RawContainer {
    Scalar,
    Array,
    Object,
}

/// A field as defined, its types still names.
#[derive(Debug)]
pub struct RawField {
    pub name: String,
    pub container: RawContainer,
    pub key_type: Option<String>,
    pub value_type: Option<String>,
}

/// A proto as defined.
#[derive(Debug)]
pub struct RawProto {
    pub name: String,
    pub wrapper: bool,
    pub fields: Vec<RawField>,
}

/// Model of [`RawField`].
pub struct RawFieldDef {
    pub name: Seq<char>,
    pub container: RawContainer,
    pub key_type: Option<Seq<char>>,
    pub value_type: Option<Seq<char>>,
}

/// Model of [`RawProto`].
pub struct RawDef {
    pub name: Seq<char>,
    pub wrapper: bool,
    pub fields: Seq<RawFieldDef>,
}

pub open spec fn view_text(s: Option<String>) -> Option<Seq<char>> {
    match s {
        Some(s) => Some(s@),
        None => None,
    }
}

impl View for RawField {
    type V = RawFieldDef;

    open spec fn view(&self) -> RawFieldDef {
        RawFieldDef {
            name: self.name@,
            container: self.container,
            key_type: view_text(self.key_type),
            value_type: view_text(self.value_type),
        }
    }
}

impl View for RawProto {
    type V = RawDef;

    open spec fn view(&self) -> RawDef {
        RawDef {
            name: self.name@,
            wrapper: self.wrapper,
            fields: self.fields@.map_values(|f: RawField| f@),
        }
    }
}

/// The text of an option that may be missing.
pub open spec fn option_text(t: Tab, key: &str) -> Result<Option<Seq<char>>, Seq<char>> {
    match t.get(field_key(key)) {
        Val::Nil => Ok(None),
        Val::Str(b, _) => Ok(Some(lossy_text(b))),
        v => Err(
            "schema.load: option '"@ + key@ + "' must be a string, got "@ + kind_name(kind_of(v)),
        ),
    }
}

/// The truth value of an option that may be missing.
pub open spec fn option_bool(t: Tab, key: &str) -> Result<Option<bool>, Seq<char>> {
    match t.get(field_key(key)) {
        Val::Nil => Ok(None),
        Val::Bool(b) => Ok(Some(b)),
        v => Err(
            "schema.load: option '"@ + key@ + "' must be a boolean, got "@ + kind_name(kind_of(v)),
        ),
    }
}

/// The container that a definition names.
pub open spec fn container_of(c: Option<Seq<char>>) -> Option<RawContainer> {
    match c {
        None => Some(RawContainer::Scalar),
        Some(name) => if name == "array"@ {
            Some(RawContainer::Array)
        } else if name == "object"@ {
            Some(RawContainer::Object)
        } else if name == ""@ {
            Some(RawContainer::Scalar)
        } else {
            None
        },
    }
}

/// A field that a table defines.
pub open spec fn raw_field(proto: Seq<char>, name: Seq<char>, t: Tab) -> Result<
    RawFieldDef,
    Seq<char>,
> {
    match option_text(t, "container") {
        Err(e) => Err(e),
        Ok(c) => match container_of(c) {
            None => Err(
                "schema.load: field '"@ + proto + "."@ + name + "' has unknown container '"@ + c->0
                    + "'"@,
            ),
            Some(container) => match option_text(t, "key_type") {
                Err(e) => Err(e),
                Ok(key_type) => match option_text(t, "value_type") {
                    Err(e) => Err(e),
                    Ok(value_type) => Ok(RawFieldDef { name, container, key_type, value_type }),
                },
            },
        },
    }
}

/// The fields that entries define, after those in `done`.
pub open spec fn raw_fields(
    proto: Seq<char>,
    es: Seq<(Val, Val)>,
    done: Seq<RawFieldDef>,
) -> Result<Seq<RawFieldDef>, Seq<char>>
    decreases es.len(),
{
    if es.len() == 0 {
        Ok(done)
    } else {
        match es[0].0 {
            Val::Str(b, _) => if lossy_text(b) == "wrapper"@ {
                raw_fields(proto, es.skip(1), done)
            } else {
                match es[0].1 {
                    Val::Table(t) => match raw_field(proto, lossy_text(b), t) {
                        Err(e) => Err(e),
                        Ok(f) => raw_fields(proto, es.skip(1), done.push(f)),
                    },
                    v => Err(
                        "schema.load: field '"@ + proto + "."@ + lossy_text(b)
                            + "' must be a table, got "@ + kind_name(kind_of(v)),
                    ),
                }
            },
            _ => Err("schema.load: proto '"@ + proto + "' has a non-string field name"@),
        }
    }
}

/// Whether a proto of a name is a wrapper even if its definition does not say so.
pub open spec fn wrapper_name(name: Seq<char>) -> bool {
    "array_"@.is_prefix_of(name) || "map_"@.is_prefix_of(name)
}

/// A proto that a table defines.
pub open spec fn raw_def(name: Seq<char>, t: Tab) -> Result<RawDef, Seq<char>> {
    match option_bool(t, "wrapper") {
        Err(e) => Err(e),
        Ok(w) => match raw_fields(name, t.entries(), Seq::empty()) {
            Err(e) => Err(e),
            Ok(fields) => Ok(
                RawDef { name, wrapper: w == Some(true) || wrapper_name(name), fields },
            ),
        },
    }
}

/// The protos that entries define, after those in `done`.
pub open spec fn raw_defs(es: Seq<(Val, Val)>, done: Seq<RawDef>) -> Result<Seq<RawDef>, Seq<char>>
    decreases es.len(),
{
    if es.len() == 0 {
        Ok(done)
    } else {
        match es[0].0 {
            Val::Str(b, _) => match es[0].1 {
                Val::Table(t) => match raw_def(lossy_text(b), t) {
                    Err(e) => Err(e),
                    Ok(d) => raw_defs(es.skip(1), done.push(d)),
                },
                v => Err(
                    "schema.load: proto '"@ + lossy_text(b) + "' definition must be a table, got "@
                        + kind_name(kind_of(v)),
                ),
            },
            _ => Err("schema.load: proto name must be a string"@),
        }
    }
}

/// The place of a definition, or -1.
pub open spec fn def_place(raws: Seq<RawDef>, name: Seq<char>) -> int
    decreases raws.len(),
{
    if raws.len() == 0 {
        -1
    } else if raws.last().name == name {
        raws.len() - 1
    } else {
        def_place(raws.drop_last(), name)
    }
}

/// The first name from place `i` on that an earlier definition has taken.
pub open spec fn first_duplicate(raws: Seq<RawDef>, i: int) -> Option<Seq<char>>
    decreases raws.len() - i,
{
    if i < 0 || i >= raws.len() {
        None
    } else if def_place(raws.take(i), raws[i].name) >= 0 {
        Some(raws[i].name)
    } else {
        first_duplicate(raws, i + 1)
    }
}

/// A name, or the empty one.
pub open spec fn or_empty(s: Option<Seq<char>>) -> Seq<char> {
    match s {
        Some(s) => s,
        None => ""@,
    }
}

/// A field with its types resolved among the definitions.
pub open spec fn resolved_field(raws: Seq<RawDef>, proto: Seq<char>, f: RawFieldDef) -> Result<
    FieldDef,
    Seq<char>,
> {
    let vt = or_empty(f.value_type);
    let kt = or_empty(f.key_type);
    if prim_of(vt) is None && def_place(raws, vt) < 0 {
        Err(
            "schema.load: field '"@ + proto + "."@ + f.name + "' value_type '"@ + vt
                + "' is not a known primitive or defined proto"@,
        )
    } else {
        let value = match prim_of(vt) {
            Some(p) => ValueType::Prim(p),
            None => ValueType::Ref(def_place(raws, vt) as u32),
        };
        match f.container {
            RawContainer::Scalar => Ok(
                FieldDef { name: f.name, container: Container::Scalar, value },
            ),
            RawContainer::Array => Ok(
                FieldDef { name: f.name, container: Container::Array, value },
            ),
            RawContainer::Object => match prim_of(kt) {
                Some(key) => Ok(
                    FieldDef { name: f.name, container: Container::Object { key }, value },
                ),
                None => Err(
                    "schema.load: object field '"@ + proto + "."@ + f.name
                        + "' requires a primitive key_type, got '"@ + kt + "'"@,
                ),
            },
        }
    }
}

/// Fields with one more; it takes the place of one of the same name.
pub open spec fn with_field(fields: Seq<FieldDef>, f: FieldDef) -> Seq<FieldDef> {
    let j = field_place(fields, f.name);
    if j >= 0 {
        fields.update(j, f)
    } else {
        fields.push(f)
    }
}

/// Fields with their types resolved, added to those in `done`.
pub open spec fn resolved_fields(
    raws: Seq<RawDef>,
    proto: Seq<char>,
    fs: Seq<RawFieldDef>,
    done: Seq<FieldDef>,
) -> Result<Seq<FieldDef>, Seq<char>>
    decreases fs.len(),
{
    if fs.len() == 0 {
        Ok(done)
    } else {
        match resolved_field(raws, proto, fs[0]) {
            Err(e) => Err(e),
            Ok(f) => resolved_fields(raws, proto, fs.skip(1), with_field(done, f)),
        }
    }
}

/// A proto with its types resolved.
pub open spec fn resolved_proto(raws: Seq<RawDef>, d: RawDef) -> Result<ProtoDef, Seq<char>> {
    match resolved_fields(raws, d.name, d.fields, Seq::empty()) {
        Err(e) => Err(e),
        Ok(fields) => if d.wrapper && field_place(fields, "data"@) < 0 {
            Err("schema.load: wrapper proto '"@ + d.name + "' must define a 'data' field"@)
        } else {
            Ok(ProtoDef { name: d.name, wrapper: d.wrapper, fields })
        },
    }
}

/// Protos with their types resolved, after those in `done`.
pub open spec fn resolved(raws: Seq<RawDef>, rest: Seq<RawDef>, done: Seq<ProtoDef>) -> Result<
    Seq<ProtoDef>,
    Seq<char>,
>
    decreases rest.len(),
{
    if rest.len() == 0 {
        Ok(done)
    } else {
        match resolved_proto(raws, rest[0]) {
            Err(e) => Err(e),
            Ok(p) => resolved(raws, rest.skip(1), done.push(p)),
        }
    }
}

/// The schema that a table of definitions stands for.
pub open spec fn schema_of(t: Tab) -> Result<Seq<ProtoDef>, Seq<char>> {
    match raw_defs(t.entries(), Seq::empty()) {
        Err(e) => Err(e),
        Ok(raws) => match first_duplicate(raws, 0) {
            Some(name) => Err("schema.load: duplicate proto '"@ + name + "'"@),
            None => resolved(raws, raws, Seq::empty()),
        },
    }
}

/// Reads an option that is a string.
fn opt_str(t: &TableValue, key: &str) -> (r: Result<Option<String>, String>)
    ensures
        match option_text(t@, key) {
            Ok(want) => r matches Ok(got) && view_text(got) == want,
            Err(e) => r matches Err(m) && m@ == e,
        },
{
    let k = LuaValue::from_bytes(copy_bytes(key.as_bytes()));
    match t.get(&k) {
        None | Some(LuaValue::Nil) => Ok(None),
        Some(LuaValue::String(s)) => Ok(Some(from_utf8_lossy(s.bytes.as_slice()))),
        Some(v) => {
            let mut m = "schema.load: option '".to_owned();
            m.append(key);
            m.append("' must be a string, got ");
            m.append(v.kind().name());
            Err(m)
        },
    }
}

/// Reads an option that is a boolean.
fn opt_bool(t: &TableValue, key: &str) -> (r: Result<Option<bool>, String>)
    ensures
        match option_bool(t@, key) {
            Ok(want) => r matches Ok(got) && got == want,
            Err(e) => r matches Err(m) && m@ == e,
        },
{
    let k = LuaValue::from_bytes(copy_bytes(key.as_bytes()));
    match t.get(&k) {
        None | Some(LuaValue::Nil) => Ok(None),
        Some(LuaValue::Boolean(b)) => Ok(Some(*b)),
        Some(v) => {
            let mut m = "schema.load: option '".to_owned();
            m.append(key);
            m.append("' must be a boolean, got ");
            m.append(v.kind().name());
            Err(m)
        },
    }
}

/// Reads the definition of a field.
fn build_raw_field(proto_name: &str, field_name: String, t: &TableValue) -> (r: Result<
    RawField,
    String,
>)
    ensures
        match raw_field(proto_name@, field_name@, t@) {
            Ok(want) => r matches Ok(got) && got@ == want,
            Err(e) => r matches Err(m) && m@ == e,
        },
{
    let container = match opt_str(t, "container")? {
        None => RawContainer::Scalar,
        Some(c) => {
            if same_text(c.as_str(), "array") {
                RawContainer::Array
            } else if same_text(c.as_str(), "object") {
                RawContainer::Object
            } else if same_text(c.as_str(), "") {
                RawContainer::Scalar
            } else {
                let mut m = "schema.load: field '".to_owned();
                m.append(proto_name);
                m.append(".");
                m.append(field_name.as_str());
                m.append("' has unknown container '");
                m.append(c.as_str());
                m.append("'");
                return Err(m);
            }
        },
    };
    let key_type = opt_str(t, "key_type")?;
    let value_type = opt_str(t, "value_type")?;
    Ok(RawField { name: field_name, container, key_type, value_type })
}

/// How a list of results turned out, against the outcome it is meant to have.
pub open spec fn as_meant<T: View>(
    r: Result<Vec<T>, String>,
    want: Result<Seq<T::V>, Seq<char>>,
) -> bool {
    match want {
        Ok(vs) => r matches Ok(got) && got@.map_values(|x: T| x@) == vs,
        Err(e) => r matches Err(m) && m@ == e,
    }
}

/// Pushing onto a list pushes onto its model.
pub proof fn lemma_push_view<T: View>(before: Seq<T>, x: T)
    ensures
        before.push(x).map_values(|x: T| x@) == before.map_values(|x: T| x@).push(x@),
{
    assert(before.push(x).map_values(|x: T| x@) =~= before.map_values(|x: T| x@).push(x@));
}

/// Reads the definitions of fields.
fn build_raw_fields(proto_name: &str, t: &TableValue) -> (r: Result<Vec<RawField>, String>)
    ensures
        as_meant(r, raw_fields(proto_name@, t@.entries(), Seq::empty())),
{
    let mut fields: Vec<RawField> = Vec::new();
    let mut place = Place { elements: 0, others: 0 };
    proof {
        law_walk_meets_every_entry(t@);
    }
    let ghost want = raw_fields(proto_name@, t@.entries(), Seq::empty());
    assert(fields@.map_values(|x: RawField| x@) =~= Seq::empty());
    loop
        invariant
            place.within(t@),
            want == raw_fields(proto_name@, t@.entries(), Seq::empty()),
            want == raw_fields(
                proto_name@,
                entries_from(t@, place.at()),
                fields@.map_values(|x: RawField| x@),
            ),
        decreases t@.array.len() + t@.hash.len() - place.at(),
    {
        match walk(t, place) {
            None => {
                return Ok(fields);
            },
            Some((key, value, next)) => {
                let ghost rest = entries_from(t@, place.at());
                let field_name = match &key {
                    LuaValue::String(s) => from_utf8_lossy(s.bytes.as_slice()),
                    _ => {
                        let mut m = "schema.load: proto '".to_owned();
                        m.append(proto_name);
                        m.append("' has a non-string field name");
                        return Err(m);
                    },
                };
                if !same_text(field_name.as_str(), "wrapper") {
                    match value {
                        LuaValue::Table(ft) => {
                            let f = build_raw_field(proto_name, field_name, ft)?;
                            proof {
                                lemma_push_view(fields@, f);
                            }
                            fields.push(f);
                        },
                        _ => {
                            let mut m = "schema.load: field '".to_owned();
                            m.append(proto_name);
                            m.append(".");
                            m.append(field_name.as_str());
                            m.append("' must be a table, got ");
                            m.append(value.kind().name());
                            return Err(m);
                        },
                    }
                }
                place = next;
            },
        }
    }
}

/// Reads the definition of a proto.
fn build_raw_proto(proto_name: String, t: &TableValue) -> (r: Result<RawProto, String>)
    ensures
        match raw_def(proto_name@, t@) {
            Ok(want) => r matches Ok(got) && got@ == want,
            Err(e) => r matches Err(m) && m@ == e,
        },
{
    let explicit_wrapper = match opt_bool(t, "wrapper")? {
        Some(b) => b,
        None => false,
    };
    let wrapper = explicit_wrapper || starts_with(proto_name.as_str(), "array_") || starts_with(
        proto_name.as_str(),
        "map_",
    );
    let fields = build_raw_fields(proto_name.as_str(), t)?;
    Ok(RawProto { name: proto_name, wrapper, fields })
}

/// Reads the definitions of protos.
fn build_raw_protos(t: &TableValue) -> (r: Result<Vec<RawProto>, String>)
    ensures
        as_meant(r, raw_defs(t@.entries(), Seq::empty())),
{
    let mut raws: Vec<RawProto> = Vec::new();
    let mut place = Place { elements: 0, others: 0 };
    proof {
        law_walk_meets_every_entry(t@);
    }
    let ghost want = raw_defs(t@.entries(), Seq::empty());
    assert(raws@.map_values(|x: RawProto| x@) =~= Seq::empty());
    loop
        invariant
            place.within(t@),
            want == raw_defs(t@.entries(), Seq::empty()),
            want == raw_defs(
                entries_from(t@, place.at()),
                raws@.map_values(|x: RawProto| x@),
            ),
        decreases t@.array.len() + t@.hash.len() - place.at(),
    {
        match walk(t, place) {
            None => {
                return Ok(raws);
            },
            Some((key, value, next)) => {
                let ghost rest = entries_from(t@, place.at());
                let proto_name = match &key {
                    LuaValue::String(s) => from_utf8_lossy(s.bytes.as_slice()),
                    _ => {
                        return Err("schema.load: proto name must be a string".to_owned());
                    },
                };
                match value {
                    LuaValue::Table(def) => {
                        let d = build_raw_proto(proto_name, def)?;
                        proof {
                            lemma_push_view(raws@, d);
                        }
                        raws.push(d);
                    },
                    _ => {
                        let mut m = "schema.load: proto '".to_owned();
                        m.append(proto_name.as_str());
                        m.append("' definition must be a table, got ");
                        m.append(value.kind().name());
                        return Err(m);
                    },
                }
                place = next;
            },
        }
    }
}

/// The place of a definition among the first `n`.
fn find_raw(raws: &Vec<RawProto>, n: usize, name: &str) -> (r: Option<usize>)
    requires
        n <= raws@.len(),
    ensures
        ({
            let ds = raws@.map_values(|d: RawProto| d@);
            match r {
                Some(i) => i == def_place(ds.take(n as int), name@) && i < n,
                None => def_place(ds.take(n as int), name@) < 0,
            }
        }),
{
    let ghost ds = raws@.map_values(|d: RawProto| d@);
    let mut i: usize = n;
    while i > 0
        invariant
            ds == raws@.map_values(|d: RawProto| d@),
            i <= n <= ds.len(),
            def_place(ds.take(n as int), name@) == def_place(ds.take(i as int), name@),
        decreases i,
    {
        i = i - 1;
        assert(ds.take(i + 1).drop_last() =~= ds.take(i as int));
        assert(ds.take(i + 1).last() == raws@[i as int]@);
        if same_text(raws[i].name.as_str(), name) {
            return Some(i);
        }
    }
    None
}

/// The first name that an earlier definition has taken.
fn find_duplicate(raws: &Vec<RawProto>) -> (r: Option<usize>)
    ensures
        ({
            let ds = raws@.map_values(|d: RawProto| d@);
            match r {
                Some(i) => i < ds.len() && first_duplicate(ds, 0) == Some(ds[i as int].name),
                None => first_duplicate(ds, 0) is None,
            }
        }),
{
    let ghost ds = raws@.map_values(|d: RawProto| d@);
    let mut i: usize = 0;
    while i < raws.len()
        invariant
            ds == raws@.map_values(|d: RawProto| d@),
            i <= ds.len(),
            first_duplicate(ds, 0) == first_duplicate(ds, i as int),
        decreases ds.len() - i,
    {
        if find_raw(raws, i, raws[i].name.as_str()).is_some() {
            return Some(i);
        }
        i = i + 1;
    }
    None
}

/// The text of a name that may be missing.
fn text_or_empty(s: &Option<String>) -> (r: &str)
    ensures
        r@ == or_empty(view_text(*s)),
{
    match s {
        Some(s) => s.as_str(),
        None => "",
    }
}

/// Resolves the types of a field.
fn resolve_field(raws: &Vec<RawProto>, proto_name: &str, rf: &RawField) -> (r: Result<
    Field,
    String,
>)
    requires
        raws@.len() <= u32::MAX,
    ensures
        match resolved_field(raws@.map_values(|d: RawProto| d@), proto_name@, rf@) {
            Ok(want) => r matches Ok(got) && got@ == want,
            Err(e) => r matches Err(m) && m@ == e,
        },
{
    let ghost ds = raws@.map_values(|d: RawProto| d@);
    assert(ds.take(ds.len() as int) =~= ds);
    let vt_name = text_or_empty(&rf.value_type);
    let value = match Prim::parse(vt_name) {
        Some(p) => ValueType::Prim(p),
        None => match find_raw(raws, raws.len(), vt_name) {
            Some(idx) => ValueType::Ref(idx as u32),
            None => {
                let mut m = "schema.load: field '".to_owned();
                m.append(proto_name);
                m.append(".");
                m.append(rf.name.as_str());
                m.append("' value_type '");
                m.append(vt_name);
                m.append("' is not a known primitive or defined proto");
                return Err(m);
            },
        },
    };
    let container = match rf.container {
        RawContainer::Scalar => Container::Scalar,
        RawContainer::Array => Container::Array,
        RawContainer::Object => {
            let kt = text_or_empty(&rf.key_type);
            match Prim::parse(kt) {
                Some(key) => Container::Object { key },
                None => {
                    let mut m = "schema.load: object field '".to_owned();
                    m.append(proto_name);
                    m.append(".");
                    m.append(rf.name.as_str());
                    m.append("' requires a primitive key_type, got '");
                    m.append(kt);
                    m.append("'");
                    return Err(m);
                },
            }
        },
    };
    Ok(Field { name: rf.name.clone(), container, value })
}

/// Adds a field; it takes the place of one of the same name.
fn insert_field(fields: &mut Vec<Field>, f: Field)
    ensures
        final(fields)@.map_values(|x: Field| x@) == with_field(
            old(fields)@.map_values(|x: Field| x@),
            f@,
        ),
{
    match crate::schema::find_in(fields, f.name.as_str()) {
        Some(j) => {
            fields.set(j, f);
            assert(fields@.map_values(|x: Field| x@) =~= old(fields)@.map_values(
                |x: Field| x@,
            ).update(j as int, f@));
        },
        None => {
            proof {
                lemma_push_view(fields@, f);
            }
            fields.push(f);
        },
    }
}

/// Resolves the types of a proto.
fn resolve_proto(raws: &Vec<RawProto>, rp: &RawProto) -> (r: Result<Proto, String>)
    requires
        raws@.len() <= u32::MAX,
    ensures
        match resolved_proto(raws@.map_values(|d: RawProto| d@), rp@) {
            Ok(want) => r matches Ok(got) && got@ == want,
            Err(e) => r matches Err(m) && m@ == e,
        },
{
    let ghost ds = raws@.map_values(|d: RawProto| d@);
    let ghost rfs = rp@.fields;
    let ghost want = resolved_fields(ds, rp@.name, rfs, Seq::empty());
    let mut fields: Vec<Field> = Vec::new();
    assert(fields@.map_values(|x: Field| x@) =~= Seq::empty());
    assert(rfs.skip(0) =~= rfs);
    let mut i: usize = 0;
    while i < rp.fields.len()
        invariant
            raws@.len() <= u32::MAX,
            ds == raws@.map_values(|d: RawProto| d@),
            rfs == rp@.fields,
            i <= rfs.len(),
            want == resolved_fields(ds, rp@.name, rfs, Seq::empty()),
            want == resolved_fields(
                ds,
                rp@.name,
                rfs.skip(i as int),
                fields@.map_values(|x: Field| x@),
            ),
        decreases rfs.len() - i,
    {
        assert(rfs.skip(i as int)[0] == rp.fields@[i as int]@);
        assert(rfs.skip(i as int).skip(1) =~= rfs.skip(i + 1));
        let f = resolve_field(raws, rp.name.as_str(), &rp.fields[i])?;
        insert_field(&mut fields, f);
        i = i + 1;
    }
    assert(rfs.skip(i as int) =~= Seq::empty());
    if rp.wrapper && crate::schema::find_in(&fields, "data").is_none() {
        let mut m = "schema.load: wrapper proto '".to_owned();
        m.append(rp.name.as_str());
        m.append("' must define a 'data' field");
        return Err(m);
    }
    Ok(Proto { name: rp.name.clone(), wrapper: rp.wrapper, fields })
}

/// Compiles a table of definitions. Any malformed definition and any unknown
/// type is an error.
pub fn build_schema(t: &TableValue) -> (r: Result<Schema, String>)
    requires
        t@.entries().len() <= u32::MAX,
    ensures
        match schema_of(t@) {
            Ok(want) => r matches Ok(got) && got@ == want && sound(want),
            Err(e) => r matches Err(m) && m@ == e,
        },
{
    let raws = build_raw_protos(t)?;
    let ghost ds = raws@.map_values(|d: RawProto| d@);
    proof {
        lemma_raw_defs_len(t@.entries(), Seq::empty());
    }
    if let Some(i) = find_duplicate(&raws) {
        let mut m = "schema.load: duplicate proto '".to_owned();
        m.append(raws[i].name.as_str());
        m.append("'");
        return Err(m);
    }
    let ghost want = resolved(ds, ds, Seq::empty());
    let mut protos: Vec<Proto> = Vec::new();
    assert(protos@.map_values(|x: Proto| x@) =~= Seq::empty());
    assert(ds.skip(0) =~= ds);
    let mut i: usize = 0;
    while i < raws.len()
        invariant
            raws@.len() <= u32::MAX,
            ds == raws@.map_values(|d: RawProto| d@),
            i <= ds.len(),
            want == schema_of(t@),
            want == resolved(ds, ds, Seq::empty()),
            want == resolved(ds, ds.skip(i as int), protos@.map_values(|x: Proto| x@)),
        decreases ds.len() - i,
    {
        assert(ds.skip(i as int)[0] == raws@[i as int]@);
        assert(ds.skip(i as int).skip(1) =~= ds.skip(i + 1));
        let p = resolve_proto(&raws, &raws[i])?;
        proof {
            lemma_push_view(protos@, p);
        }
        protos.push(p);
        i = i + 1;
    }
    assert(ds.skip(i as int) =~= Seq::empty());
    let r = Schema { protos };
    assert(r@ =~= want->Ok_0);
    proof {
        law_loaded_schemas_are_sound(t@);
    }
    Ok(r)
}

/// Compiles the table of definitions that a callback was given.
pub fn load(lua: &LuaStack) -> (r: Result<Schema, String>)
    requires
        lua.wf(),
        lua.slot(1) matches Some(Val::Table(t)) ==> t.entries().len() <= u32::MAX,
    ensures
        match lua.slot(1) {
            Some(Val::Table(t)) => match schema_of(t) {
                Ok(want) => r matches Ok(got) && got@ == want && sound(want),
                Err(e) => r matches Err(m) && m@ == e,
            },
            _ => r matches Err(m) && m@ == "schema.load: table expected"@,
        },
{
    match lua.at(1) {
        Some(LuaValue::Table(t)) => build_schema(t),
        _ => Err("schema.load: table expected".to_owned()),
    }
}

proof fn lemma_raw_defs_len(es: Seq<(Val, Val)>, done: Seq<RawDef>)
    ensures
        raw_defs(es, done) matches Ok(ds) ==> ds.len() == done.len() + es.len(),
    decreases es.len(),
{
    if es.len() > 0 {
        if let Val::Str(b, _) = es[0].0 {
            if let Val::Table(t) = es[0].1 {
                if let Ok(d) = raw_def(lossy_text(b), t) {
                    lemma_raw_defs_len(es.skip(1), done.push(d));
                }
            }
        }
    }
}

/// `def_place` names a definition of the name, the last one, or says that there
/// is none.
pub proof fn lemma_def_place(raws: Seq<RawDef>, name: Seq<char>)
    ensures
        -1 <= def_place(raws, name) < raws.len(),
        def_place(raws, name) >= 0 ==> raws[def_place(raws, name)].name == name,
        forall|i: int|
            def_place(raws, name) < i < raws.len() ==> (#[trigger] raws[i]).name != name,
    decreases raws.len(),
{
    if raws.len() > 0 && raws.last().name != name {
        let front = raws.drop_last();
        lemma_def_place(front, name);
        assert forall|i: int| def_place(front, name) < i < raws.len() implies (
        #[trigger] raws[i]).name != name by {
            if i < front.len() {
                assert(front[i] == raws[i]);
            }
        }
    }
}

/// Fields whose references lead into `n` protos and whose names differ.
spec fn sound_fields(fs: Seq<FieldDef>, n: nat) -> bool {
    &&& forall|i: int|
        0 <= i < fs.len() ==> ((#[trigger] fs[i]).value matches ValueType::Ref(k) ==> k < n)
    &&& forall|i: int, j: int|
        0 <= i < j < fs.len() ==> (#[trigger] fs[i]).name != (#[trigger] fs[j]).name
}

proof fn lemma_fields_sound(
    raws: Seq<RawDef>,
    proto: Seq<char>,
    fs: Seq<RawFieldDef>,
    done: Seq<FieldDef>,
)
    requires
        raws.len() <= u32::MAX,
        sound_fields(done, raws.len()),
    ensures
        resolved_fields(raws, proto, fs, done) matches Ok(r) ==> sound_fields(r, raws.len()),
    decreases fs.len(),
{
    if fs.len() > 0 {
        if let Ok(f) = resolved_field(raws, proto, fs[0]) {
            lemma_def_place(raws, or_empty(fs[0].value_type));
            lemma_field_place(done, f.name);
            let next = with_field(done, f);
            let place = field_place(done, f.name);
            assert forall|i: int, j: int| 0 <= i < j < next.len() implies (
            #[trigger] next[i]).name != (#[trigger] next[j]).name by {
                if place >= 0 {
                    assert(next[i].name == done[i].name);
                    assert(next[j].name == done[j].name);
                    assert(done[i].name != done[j].name);
                } else if j < done.len() {
                    assert(done[i].name != done[j].name);
                } else {
                    assert(done[i].name != f.name);
                }
            }
            lemma_fields_sound(raws, proto, fs.skip(1), next);
        }
    }
}

proof fn lemma_resolved_sound(raws: Seq<RawDef>, rest: Seq<RawDef>, done: Seq<ProtoDef>)
    requires
        raws.len() <= u32::MAX,
        done.len() + rest.len() == raws.len(),
        rest == raws.skip(done.len() as int),
        forall|i: int| 0 <= i < done.len() ==> sound_proto(#[trigger] done[i], raws.len()),
        forall|i: int| 0 <= i < done.len() ==> (#[trigger] done[i]).name == raws[i].name,
    ensures
        resolved(raws, rest, done) matches Ok(ps) ==> {
            &&& ps.len() == raws.len()
            &&& forall|i: int| 0 <= i < ps.len() ==> sound_proto(#[trigger] ps[i], raws.len())
            &&& forall|i: int| 0 <= i < ps.len() ==> (#[trigger] ps[i]).name == raws[i].name
        },
    decreases rest.len(),
{
    if rest.len() > 0 {
        if let Ok(p) = resolved_proto(raws, rest[0]) {
            lemma_fields_sound(raws, rest[0].name, rest[0].fields, Seq::empty());
            assert(rest.skip(1) =~= raws.skip(done.len() as int + 1));
            lemma_resolved_sound(raws, rest.skip(1), done.push(p));
        }
    }
}

proof fn lemma_no_duplicate(raws: Seq<RawDef>, i: int)
    requires
        0 <= i <= raws.len(),
        first_duplicate(raws, i) is None,
    ensures
        forall|j: int, k: int|
            0 <= j < k < raws.len() && i <= k ==> (#[trigger] raws[j]).name != (
            #[trigger] raws[k]).name,
    decreases raws.len() - i,
{
    if i < raws.len() {
        lemma_no_duplicate(raws, i + 1);
        lemma_def_place(raws.take(i), raws[i].name);
        assert forall|j: int, k: int| 0 <= j < k < raws.len() && i <= k implies (
        #[trigger] raws[j]).name != (#[trigger] raws[k]).name by {
            if k == i {
                assert(raws.take(i)[j] == raws[j]);
            }
        }
    }
}

/// A schema that loads has no dangling reference, no wrapper without its field
/// and no name twice: what is wrong with it comes out when it is loaded.
pub proof fn law_loaded_schemas_are_sound(t: Tab)
    requires
        t.entries().len() <= u32::MAX,
    ensures
        schema_of(t) matches Ok(ps) ==> sound(ps),
{
    if let Ok(raws) = raw_defs(t.entries(), Seq::empty()) {
        lemma_raw_defs_len(t.entries(), Seq::empty());
        if first_duplicate(raws, 0) is None {
            lemma_no_duplicate(raws, 0);
            assert(raws.skip(0) =~= raws);
            lemma_resolved_sound(raws, raws, Seq::empty());
            if let Ok(ps) = resolved(raws, raws, Seq::empty()) {
                assert forall|i: int, j: int| 0 <= i < j < ps.len() implies (
                #[trigger] ps[i]).name != (#[trigger] ps[j]).name by {
                    assert(ps[i].name == raws[i].name);
                    assert(ps[j].name == raws[j].name);
                }
            }
        }
    }
}

} // verus!
