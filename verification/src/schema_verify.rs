//! Checking tables against a schema.
use vstd::prelude::*;
use vstd::string::*;
use vstd::utf8::*;

use crate::cursor::{entries_from, law_walk_meets_every_entry, walk, Place};
use crate::laux::{display_text, lua_array_size, strict_len, value_text, LuaStack};
use crate::schema::{
    accepted, field_place, lemma_proto_place, prim_name, proto_place, sound, sound_proto, Container,
    Field, FieldDef, Prim, ProtoDef, Schema, ValueType,
};
use crate::text::{decimal, from_utf8, push_char, push_u64};
use crate::value::{kind_name, kind_of, LuaValue, Tab, TableValue, Val};

verus! {

/// Protos may nest this deep.
pub const MAX_DEPTH: u32 = 64;

/// A step of the path to a value.
#[derive(Debug, PartialEq)]
pub enum Seg<'a> {
    Field(&'a str),
    Index(usize),
    Key(String),
}

/// The text of a step.
pub open spec fn seg_text(s: Seg) -> Seq<char> {
    match s {
        Seg::Field(f) => f@,
        Seg::Index(i) => decimal(i as int),
        Seg::Key(k) => k@,
    }
}

/// The texts of the steps of a path.
pub open spec fn texts(trace: Seq<Seg>) -> Seq<Seq<char>> {
    trace.map_values(|s: Seg| seg_text(s))
}

/// A path in messages: its steps with dots between.
pub open spec fn trace_text(trace: Seq<Seq<char>>) -> Seq<char>
    decreases trace.len(),
{
    if trace.len() == 0 {
        Seq::empty()
    } else {
        let front = trace_text(trace.drop_last());
        (if front.len() == 0 {
            front
        } else {
            front.push('.')
        }) + trace.last()
    }
}

/// The text of a path.
pub fn join(trace: &[Seg]) -> (r: String)
    ensures
        r@ == trace_text(texts(trace@)),
{
    let mut s = String::new();
    let mut i: usize = 0;
    let ghost ts = texts(trace@);
    assert(ts.take(0) =~= Seq::empty());
    assert(s@ =~= trace_text(ts.take(0)));
    while i < trace.len()
        invariant
            ts == texts(trace@),
            i <= ts.len(),
            s@ == trace_text(ts.take(i as int)),
        decreases ts.len() - i,
    {
        assert(ts.take(i + 1).drop_last() =~= ts.take(i as int));
        if !s.as_str().is_empty() {
            push_char(&mut s, '.');
        }
        let ghost front = s@;
        match &trace[i] {
            Seg::Field(f) => {
                s.append(f);
            },
            Seg::Index(n) => {
                push_u64(&mut s, *n as u64);
            },
            Seg::Key(k) => {
                s.append(k.as_str());
            },
        }
        assert(s@ == front + seg_text(trace@[i as int]));
        i = i + 1;
    }
    assert(ts.take(i as int) =~= ts);
    s
}

/// The field name that a key stands for.
pub open spec fn key_text(b: Seq<u8>) -> Seq<char> {
    if valid_utf8(b) {
        decode_utf8(b)
    } else {
        ""@
    }
}

/// How far a nesting depth is from the end.
pub open spec fn levels_left(depth: nat) -> nat {
    if depth <= MAX_DEPTH {
        (MAX_DEPTH + 1 - depth) as nat
    } else {
        0
    }
}

/// What is wrong with a value as a table of a proto, if anything.
pub open spec fn complaint(
    ps: Seq<ProtoDef>,
    idx: int,
    v: Val,
    trace: Seq<Seq<char>>,
    depth: nat,
    room: int,
) -> Option<Seq<char>>
    decreases levels_left(depth), 9nat, 0nat,
{
    if depth > MAX_DEPTH {
        Some("schema: nesting exceeds 64 levels (cyclic data?). trace: "@ + trace_text(trace))
    } else if room < 8 {
        Some("stack overflow (schema.verify)"@)
    } else {
        match v {
            Val::Table(t) => if ps[idx].wrapper {
                named_complaint(ps, ps[idx], "data"@, v, trace, depth, room)
            } else {
                entries_complaint(ps, ps[idx], t.entries(), trace, depth, room - 2)
            },
            _ => Some(
                "'"@ + ps[idx].name + "' table expected, got "@ + kind_name(kind_of(v))
                    + ". trace: "@ + trace_text(trace),
            ),
        }
    }
}

/// What is wrong with entries as fields of a proto, if anything.
pub open spec fn entries_complaint(
    ps: Seq<ProtoDef>,
    p: ProtoDef,
    es: Seq<(Val, Val)>,
    trace: Seq<Seq<char>>,
    depth: nat,
    room: int,
) -> Option<Seq<char>>
    decreases levels_left(depth), 8nat, es.len(),
    when depth <= MAX_DEPTH
{
    if es.len() == 0 {
        None
    } else {
        match es[0].0 {
            Val::Str(b, _) => match named_complaint(
                ps,
                p,
                key_text(b),
                es[0].1,
                trace,
                depth,
                room,
            ) {
                Some(m) => Some(m),
                None => entries_complaint(ps, p, es.skip(1), trace, depth, room),
            },
            _ => Some("'"@ + p.name + "' has a non-string key. trace: "@ + trace_text(trace)),
        }
    }
}

/// What is wrong with a value as the field of a name, if anything.
pub open spec fn named_complaint(
    ps: Seq<ProtoDef>,
    p: ProtoDef,
    name: Seq<char>,
    v: Val,
    trace: Seq<Seq<char>>,
    depth: nat,
    room: int,
) -> Option<Seq<char>>
    decreases levels_left(depth), 7nat, 0nat,
    when depth <= MAX_DEPTH
{
    let place = field_place(p.fields, name);
    if place < 0 {
        Some(
            "attempt to index undefined field '"@ + p.name + "."@ + name + "'. trace: "@
                + trace_text(trace),
        )
    } else {
        field_complaint(ps, p.fields[place], v, trace, depth, room)
    }
}

/// What is wrong with a value as a field, if anything.
pub open spec fn field_complaint(
    ps: Seq<ProtoDef>,
    f: FieldDef,
    v: Val,
    trace: Seq<Seq<char>>,
    depth: nat,
    room: int,
) -> Option<Seq<char>>
    decreases levels_left(depth), 6nat, 0nat,
    when depth <= MAX_DEPTH
{
    let tr = trace.push(f.name);
    match f.container {
        Container::Scalar => value_complaint(ps, f.value, v, tr, depth, room),
        Container::Array => array_complaint(ps, f.value, v, tr, depth, room),
        Container::Object { key } => object_complaint(ps, f.value, key, v, tr, depth, room),
    }
}

/// What is wrong with a value as one of a type, if anything.
pub open spec fn value_complaint(
    ps: Seq<ProtoDef>,
    vt: ValueType,
    v: Val,
    trace: Seq<Seq<char>>,
    depth: nat,
    room: int,
) -> Option<Seq<char>>
    decreases levels_left(depth), 1nat, 0nat,
    when depth <= MAX_DEPTH
{
    match vt {
        ValueType::Prim(p) => prim_complaint(p, v, trace),
        ValueType::Ref(i) => complaint(ps, i as int, v, trace, depth + 1, room),
    }
}

/// What is wrong with a value as a primitive, if anything.
pub open spec fn prim_complaint(p: Prim, v: Val, trace: Seq<Seq<char>>) -> Option<Seq<char>> {
    if accepted(p, v) {
        None
    } else {
        Some(
            prim_name(p) + " expected, got "@ + kind_name(kind_of(v)) + ", value '"@ + display_text(
                Some(v),
            ) + "'. trace: "@ + trace_text(trace),
        )
    }
}

/// What is wrong with a value as a sequence, if anything. An empty table is one.
pub open spec fn array_complaint(
    ps: Seq<ProtoDef>,
    vt: ValueType,
    v: Val,
    trace: Seq<Seq<char>>,
    depth: nat,
    room: int,
) -> Option<Seq<char>>
    decreases levels_left(depth), 3nat, 0nat,
    when depth <= MAX_DEPTH
{
    match v {
        Val::Table(t) => if strict_len(t) == 0 {
            if t.entries().len() > 0 {
                Some("not a valid array (sequence) table. trace: "@ + trace_text(trace))
            } else {
                None
            }
        } else if room < 4 {
            Some("stack overflow (schema.array)"@)
        } else {
            items_complaint(ps, vt, t.array, 0, trace, depth, room - 1)
        },
        _ => Some(
            "array (table) expected, got "@ + kind_name(kind_of(v)) + ". trace: "@ + trace_text(
                trace,
            ),
        ),
    }
}

/// What is wrong with elements from a place on, if anything.
pub open spec fn items_complaint(
    ps: Seq<ProtoDef>,
    vt: ValueType,
    items: Seq<Val>,
    i: nat,
    trace: Seq<Seq<char>>,
    depth: nat,
    room: int,
) -> Option<Seq<char>>
    decreases levels_left(depth), 2nat, items.len() - i,
    when depth <= MAX_DEPTH
{
    if i >= items.len() {
        None
    } else {
        match value_complaint(ps, vt, items[i as int], trace.push(decimal(i as int + 1)), depth, room) {
            Some(m) => Some(m),
            None => items_complaint(ps, vt, items, i + 1, trace, depth, room),
        }
    }
}

/// What is wrong with a value as a map, if anything.
pub open spec fn object_complaint(
    ps: Seq<ProtoDef>,
    vt: ValueType,
    key: Prim,
    v: Val,
    trace: Seq<Seq<char>>,
    depth: nat,
    room: int,
) -> Option<Seq<char>>
    decreases levels_left(depth), 3nat, 0nat,
    when depth <= MAX_DEPTH
{
    match v {
        Val::Table(t) => if room < 6 {
            Some("stack overflow (schema.object)"@)
        } else {
            pairs_complaint(ps, vt, key, t.object, t.entries(), trace, depth, room - 2)
        },
        _ => Some(
            "object (table) expected, got "@ + kind_name(kind_of(v)) + ". trace: "@ + trace_text(
                trace,
            ),
        ),
    }
}

/// What is wrong with entries as pairs of a map, if anything. A map that has the
/// key 1 must be marked as one.
pub open spec fn pairs_complaint(
    ps: Seq<ProtoDef>,
    vt: ValueType,
    key: Prim,
    marked: bool,
    es: Seq<(Val, Val)>,
    trace: Seq<Seq<char>>,
    depth: nat,
    room: int,
) -> Option<Seq<char>>
    decreases levels_left(depth), 2nat, es.len(),
    when depth <= MAX_DEPTH
{
    if es.len() == 0 {
        None
    } else if es[0].0 == Val::Int(1) && !marked {
        Some(
            "object table uses integer key=1 but is missing metafield '__object'. trace: "@
                + trace_text(trace),
        )
    } else {
        let tr = trace.push(display_text(Some(es[0].0)));
        if !accepted(key, es[0].0) {
            Some(
                "$key "@ + prim_name(key) + " expected, got "@ + kind_name(kind_of(es[0].0))
                    + ". trace: "@ + trace_text(tr),
            )
        } else {
            match value_complaint(ps, vt, es[0].1, tr, depth, room) {
                Some(m) => Some(m),
                None => pairs_complaint(
                    ps,
                    vt,
                    key,
                    marked,
                    es.skip(1),
                    trace,
                    depth,
                    room,
                ),
            }
        }
    }
}

/// How a check turned out, against what it is meant to say.
pub open spec fn says(r: Result<(), String>, want: Option<Seq<char>>) -> bool {
    match want {
        None => r is Ok,
        Some(m) => r matches Err(e) && e@ == m,
    }
}

proof fn lemma_push_text<'a>(trace: Seq<Seg<'a>>, s: Seg<'a>)
    ensures
        texts(trace.push(s)) == texts(trace).push(seg_text(s)),
        trace.push(s).drop_last() == trace,
{
    assert(texts(trace.push(s)) =~= texts(trace).push(seg_text(s)));
    assert(trace.push(s).drop_last() =~= trace);
}

/// Checks a value against a primitive.
fn check_primitive(value: &LuaValue, primitive: Prim, trace: &Vec<Seg>) -> (r: Result<(), String>)
    ensures
        says(r, prim_complaint(primitive, value@, texts(trace@))),
{
    if primitive.accepts(value) {
        return Ok(());
    }
    let mut m = primitive.name().to_owned();
    m.append(" expected, got ");
    m.append(value.kind().name());
    m.append(", value '");
    m.append(value_text(value).as_str());
    m.append("'. trace: ");
    m.append(join(trace.as_slice()).as_str());
    Err(m)
}

/// The report of a value that is no table.
fn no_table(what: &str, value: &LuaValue, trace: &Vec<Seg>) -> (r: String)
    ensures
        r@ == what@ + kind_name(kind_of(value@)) + ". trace: "@ + trace_text(texts(trace@)),
{
    let mut m = what.to_owned();
    m.append(value.kind().name());
    m.append(". trace: ");
    m.append(join(trace.as_slice()).as_str());
    m
}

/// Checks a value against the proto at a place.
pub fn verify<'a>(
    schema: &'a Schema,
    proto_idx: u32,
    value: &LuaValue,
    trace: &mut Vec<Seg<'a>>,
    depth: u32,
    room: usize,
) -> (r: Result<(), String>)
    requires
        sound(schema@),
        proto_idx < schema@.len(),
    ensures
        final(trace)@ == old(trace)@,
        says(
            r,
            complaint(
                schema@,
                proto_idx as int,
                value@,
                texts(old(trace)@),
                depth as nat,
                room as int,
            ),
        ),
    decreases levels_left(depth as nat), 9nat,
{
    if depth > MAX_DEPTH {
        let mut m = "schema: nesting exceeds 64 levels (cyclic data?). trace: ".to_owned();
        m.append(join(trace.as_slice()).as_str());
        return Err(m);
    }
    if room < 8 {
        return Err("stack overflow (schema.verify)".to_owned());
    }
    let proto = &schema.protos[proto_idx as usize];
    assert(proto@ == schema@[proto_idx as int]);
    match value {
        LuaValue::Table(t) => {
            if proto.wrapper {
                verify_field(schema, proto_idx, value, "data", trace, depth, room)
            } else {
                verify_entries(schema, proto_idx, t, trace, depth, room - 2)
            }
        },
        _ => {
            let mut m = "'".to_owned();
            m.append(proto.name.as_str());
            m.append("' table expected, got ");
            m.append(value.kind().name());
            m.append(". trace: ");
            m.append(join(trace.as_slice()).as_str());
            Err(m)
        },
    }
}

/// Checks the entries of a table against the fields of a proto.
fn verify_entries<'a>(
    schema: &'a Schema,
    proto_idx: u32,
    t: &TableValue,
    trace: &mut Vec<Seg<'a>>,
    depth: u32,
    room: usize,
) -> (r: Result<(), String>)
    requires
        sound(schema@),
        proto_idx < schema@.len(),
        depth <= MAX_DEPTH,
    ensures
        final(trace)@ == old(trace)@,
        says(
            r,
            entries_complaint(
                schema@,
                schema@[proto_idx as int],
                t@.entries(),
                texts(old(trace)@),
                depth as nat,
                room as int,
            ),
        ),
    decreases levels_left(depth as nat), 8nat,
{
    let ghost p = schema@[proto_idx as int];
    let ghost tr = texts(trace@);
    let ghost want = entries_complaint(
        schema@,
        p,
        t@.entries(),
        tr,
        depth as nat,
        room as int,
    );
    let mut place = Place { elements: 0, others: 0 };
    proof {
        law_walk_meets_every_entry(t@);
    }
    loop
        invariant
            sound(schema@),
            proto_idx < schema@.len(),
            p == schema@[proto_idx as int],
            depth <= MAX_DEPTH,
            place.within(t@),
            trace@ == old(trace)@,
            tr == texts(trace@),
            want == entries_complaint(
                schema@,
                p,
                t@.entries(),
                tr,
                depth as nat,
                room as int,
            ),
            want == entries_complaint(
                schema@,
                p,
                entries_from(t@, place.at()),
                tr,
                depth as nat,
                room as int,
            ),
        decreases t@.array.len() + t@.hash.len() - place.at(),
    {
        match walk(t, place) {
            None => {
                return Ok(());
            },
            Some((key, value, next)) => {
                let ghost rest = entries_from(t@, place.at());
                match &key {
                    LuaValue::String(s) => {
                        let name = match from_utf8(s.bytes.as_slice()) {
                            Ok(name) => name,
                            Err(_) => "",
                        };
                        verify_field(schema, proto_idx, value, name, trace, depth, room)?;
                    },
                    _ => {
                        let mut m = "'".to_owned();
                        m.append(schema.protos[proto_idx as usize].name.as_str());
                        m.append("' has a non-string key. trace: ");
                        m.append(join(trace.as_slice()).as_str());
                        return Err(m);
                    },
                }
                place = next;
            },
        }
    }
}

/// Checks a value against the field of a name.
fn verify_field<'a>(
    schema: &'a Schema,
    proto_idx: u32,
    value: &LuaValue,
    field_name: &str,
    trace: &mut Vec<Seg<'a>>,
    depth: u32,
    room: usize,
) -> (r: Result<(), String>)
    requires
        sound(schema@),
        proto_idx < schema@.len(),
        depth <= MAX_DEPTH,
    ensures
        final(trace)@ == old(trace)@,
        says(
            r,
            named_complaint(
                schema@,
                schema@[proto_idx as int],
                field_name@,
                value@,
                texts(old(trace)@),
                depth as nat,
                room as int,
            ),
        ),
    decreases levels_left(depth as nat), 7nat,
{
    let proto = &schema.protos[proto_idx as usize];
    assert(proto@ == schema@[proto_idx as int]);
    match proto.find(field_name) {
        Some(i) => {
            assert(sound_proto(schema@[proto_idx as int], schema@.len()));
            assert(proto.fields@[i as int]@ == proto@.fields[i as int]);
            verify_resolved_field(schema, value, &proto.fields[i], trace, depth, room)
        },
        None => {
            let mut m = "attempt to index undefined field '".to_owned();
            m.append(proto.name.as_str());
            m.append(".");
            m.append(field_name);
            m.append("'. trace: ");
            m.append(join(trace.as_slice()).as_str());
            Err(m)
        },
    }
}

/// Checks a value against a field.
fn verify_resolved_field<'a>(
    schema: &'a Schema,
    value: &LuaValue,
    field: &'a Field,
    trace: &mut Vec<Seg<'a>>,
    depth: u32,
    room: usize,
) -> (r: Result<(), String>)
    requires
        sound(schema@),
        field.value matches ValueType::Ref(k) ==> k < schema@.len(),
        depth <= MAX_DEPTH,
    ensures
        final(trace)@ == old(trace)@,
        says(
            r,
            field_complaint(
                schema@,
                field@,
                value@,
                texts(old(trace)@),
                depth as nat,
                room as int,
            ),
        ),
    decreases levels_left(depth as nat), 6nat,
{
    let step = Seg::Field(field.name.as_str());
    proof {
        lemma_push_text(trace@, step);
    }
    trace.push(step);
    let r = match field.container {
        Container::Scalar => check_value(schema, value, field.value, trace, depth, room),
        Container::Array => verify_array(schema, value, field.value, trace, depth, room),
        Container::Object { key } => verify_object(
            schema,
            value,
            field.value,
            key,
            trace,
            depth,
            room,
        ),
    };
    let _step = trace.pop();
    r
}

/// Checks a value against a type.
fn check_value<'a>(
    schema: &'a Schema,
    value: &LuaValue,
    vt: ValueType,
    trace: &mut Vec<Seg<'a>>,
    depth: u32,
    room: usize,
) -> (r: Result<(), String>)
    requires
        sound(schema@),
        vt matches ValueType::Ref(k) ==> k < schema@.len(),
        depth <= MAX_DEPTH,
    ensures
        final(trace)@ == old(trace)@,
        says(
            r,
            value_complaint(
                schema@,
                vt,
                value@,
                texts(old(trace)@),
                depth as nat,
                room as int,
            ),
        ),
    decreases levels_left(depth as nat), 1nat,
{
    match vt {
        ValueType::Prim(p) => check_primitive(value, p, trace),
        ValueType::Ref(idx) => verify(schema, idx, value, trace, depth + 1, room),
    }
}

/// Checks a value against a sequence of a type.
fn verify_array<'a>(
    schema: &'a Schema,
    value: &LuaValue,
    vt: ValueType,
    trace: &mut Vec<Seg<'a>>,
    depth: u32,
    room: usize,
) -> (r: Result<(), String>)
    requires
        sound(schema@),
        vt matches ValueType::Ref(k) ==> k < schema@.len(),
        depth <= MAX_DEPTH,
    ensures
        final(trace)@ == old(trace)@,
        says(
            r,
            array_complaint(
                schema@,
                vt,
                value@,
                texts(old(trace)@),
                depth as nat,
                room as int,
            ),
        ),
    decreases levels_left(depth as nat), 3nat,
{
    let t = match value {
        LuaValue::Table(t) => t,
        _ => {
            return Err(no_table("array (table) expected, got ", value, trace));
        },
    };
    let size = lua_array_size(t);
    if size == 0 {
        proof {
            law_walk_meets_every_entry(t@);
        }
        if walk(t, Place { elements: 0, others: 0 }).is_some() {
            let mut m = "not a valid array (sequence) table. trace: ".to_owned();
            m.append(join(trace.as_slice()).as_str());
            return Err(m);
        }
        return Ok(());
    }
    if room < 4 {
        return Err("stack overflow (schema.array)".to_owned());
    }
    let ghost items = t@.array;
    let ghost tr = texts(trace@);
    let ghost want = items_complaint(schema@, vt, items, 0, tr, depth as nat, room - 1);
    let mut i: usize = 0;
    while i < size
        invariant
            sound(schema@),
            vt matches ValueType::Ref(k) ==> k < schema@.len(),
            depth <= MAX_DEPTH,
            room >= 4,
            items == t@.array,
            size == items.len(),
            i <= size,
            trace@ == old(trace)@,
            tr == texts(trace@),
            want == array_complaint(
                schema@,
                vt,
                value@,
                tr,
                depth as nat,
                room as int,
            ),
            want == items_complaint(
                schema@,
                vt,
                items,
                i as nat,
                tr,
                depth as nat,
                room - 1,
            ),
        decreases size - i,
    {
        let step = Seg::Index(i + 1);
        proof {
            lemma_push_text(trace@, step);
        }
        assert(t.array@[i as int]@ == items[i as int]);
        trace.push(step);
        let r = check_value(schema, &t.array[i], vt, trace, depth, room - 1);
        let _step = trace.pop();
        r?;
        i = i + 1;
    }
    Ok(())
}

/// Checks a value against a map of a type.
fn verify_object<'a>(
    schema: &'a Schema,
    value: &LuaValue,
    vt: ValueType,
    key_prim: Prim,
    trace: &mut Vec<Seg<'a>>,
    depth: u32,
    room: usize,
) -> (r: Result<(), String>)
    requires
        sound(schema@),
        vt matches ValueType::Ref(k) ==> k < schema@.len(),
        depth <= MAX_DEPTH,
    ensures
        final(trace)@ == old(trace)@,
        says(
            r,
            object_complaint(
                schema@,
                vt,
                key_prim,
                value@,
                texts(old(trace)@),
                depth as nat,
                room as int,
            ),
        ),
    decreases levels_left(depth as nat), 3nat,
{
    let t = match value {
        LuaValue::Table(t) => t,
        _ => {
            return Err(no_table("object (table) expected, got ", value, trace));
        },
    };
    if room < 6 {
        return Err("stack overflow (schema.object)".to_owned());
    }
    let ghost tr = texts(trace@);
    let ghost want = object_complaint(
        schema@,
        vt,
        key_prim,
        value@,
        tr,
        depth as nat,
        room as int,
    );
    let mut place = Place { elements: 0, others: 0 };
    proof {
        law_walk_meets_every_entry(t@);
    }
    loop
        invariant
            sound(schema@),
            vt matches ValueType::Ref(k) ==> k < schema@.len(),
            depth <= MAX_DEPTH,
            room >= 6,
            place.within(t@),
            trace@ == old(trace)@,
            tr == texts(trace@),
            want == object_complaint(
                schema@,
                vt,
                key_prim,
                value@,
                tr,
                depth as nat,
                room as int,
            ),
            want == pairs_complaint(
                schema@,
                vt,
                key_prim,
                t@.object,
                entries_from(t@, place.at()),
                tr,
                depth as nat,
                room - 2,
            ),
        decreases t@.array.len() + t@.hash.len() - place.at(),
    {
        match walk(t, place) {
            None => {
                return Ok(());
            },
            Some((key, v, next)) => {
                let ghost rest = entries_from(t@, place.at());
                let key_is_one = match &key {
                    LuaValue::Integer(n) => *n == 1,
                    _ => false,
                };
                if key_is_one && !t.object {
                    let mut m =
                        "object table uses integer key=1 but is missing metafield '__object'. trace: ".to_owned();
                    m.append(join(trace.as_slice()).as_str());
                    return Err(m);
                }
                let step = Seg::Key(value_text(&key));
                proof {
                    lemma_push_text(trace@, step);
                }
                trace.push(step);
                if !key_prim.accepts(&key) {
                    let mut m = "$key ".to_owned();
                    m.append(key_prim.name());
                    m.append(" expected, got ");
                    m.append(key.kind().name());
                    m.append(". trace: ");
                    m.append(join(trace.as_slice()).as_str());
                    let _step = trace.pop();
                    return Err(m);
                }
                let r = check_value(schema, v, vt, trace, depth, room - 2);
                let _step = trace.pop();
                r?;
                place = next;
            },
        }
    }
}

/// What a callback that checks a table against a named proto answers.
pub open spec fn answer(
    name: Option<Val>,
    value: Option<Val>,
    ps: Option<Seq<ProtoDef>>,
    room: int,
) -> Option<Seq<char>> {
    if !(name matches Some(Val::Str(b, _)) && valid_utf8(b)) {
        Some("bad argument #1 (valid UTF-8 string expected)"@)
    } else if !(value matches Some(Val::Table(_))) {
        Some("schema.validate: table expected"@)
    } else {
        let proto = decode_utf8(name->0->Str_0);
        match ps {
            None => Some("schema.validate: no schema has been loaded"@),
            Some(ps) => if proto_place(ps, proto) < 0 {
                Some("schema.validate: attempt to use undefined proto '"@ + proto + "'"@)
            } else {
                complaint(ps, proto_place(ps, proto), value->0, seq![proto], 0, room)
            },
        }
    }
}

/// Checks the table in the second argument against the proto that the first one
/// names. Gives the number of results.
pub fn validate(lua: &LuaStack, schema: Option<&Schema>) -> (r: Result<i32, String>)
    requires
        lua.wf(),
        schema matches Some(s) ==> sound(s@),
    ensures
        ({
            let ps = match schema {
                Some(s) => Some(s@),
                None => None,
            };
            match answer(lua.slot(1), lua.slot(2), ps, lua.room()) {
                None => r == Ok::<i32, String>(0),
                Some(m) => r matches Err(e) && e@ == m,
            }
        }),
{
    let proto_name = match lua.value(1).as_str() {
        Some(name) => name,
        None => {
            return Err("bad argument #1 (valid UTF-8 string expected)".to_owned());
        },
    };
    match lua.at(2) {
        Some(LuaValue::Table(_)) => {},
        _ => {
            return Err("schema.validate: table expected".to_owned());
        },
    }
    let schema = match schema {
        Some(s) => s,
        None => {
            return Err("schema.validate: no schema has been loaded".to_owned());
        },
    };
    let proto_idx = match schema.find(proto_name) {
        Some(i) => i,
        None => {
            let mut m = "schema.validate: attempt to use undefined proto '".to_owned();
            m.append(proto_name);
            m.append("'");
            return Err(m);
        },
    };
    let mut trace: Vec<Seg> = Vec::new();
    trace.push(Seg::Field(schema.protos[proto_idx as usize].name.as_str()));
    proof {
        lemma_proto_place(schema@, proto_name@);
        assert(schema@[proto_idx as int] == schema.protos@[proto_idx as int]@);
        assert(texts(trace@) =~= seq![proto_name@]);
    }
    match lua.at(2) {
        Some(v) => match verify(schema, proto_idx, v, &mut trace, 0, lua.free()) {
            Ok(()) => Ok(0),
            Err(m) => Err(m),
        },
        None => Ok(0),
    }
}

/// Whether a value is a table of a proto.
pub open spec fn fits(ps: Seq<ProtoDef>, idx: int, v: Val, depth: nat, room: int) -> bool
    decreases levels_left(depth), 9nat,
{
    &&& depth <= MAX_DEPTH
    &&& room >= 8
    &&& v matches Val::Table(t) && if ps[idx].wrapper {
        fits_named(ps, ps[idx], "data"@, v, depth, room)
    } else {
        fits_entries(ps, ps[idx], t.entries(), depth, room - 2)
    }
}

/// Whether every entry has a field of its name and a value that fits it.
pub open spec fn fits_entries(
    ps: Seq<ProtoDef>,
    p: ProtoDef,
    es: Seq<(Val, Val)>,
    depth: nat,
    room: int,
) -> bool
    decreases levels_left(depth), 8nat,
    when depth <= MAX_DEPTH
{
    forall|i: int|
        0 <= i < es.len() ==> (#[trigger] es[i]).0 is Str && fits_named(
            ps,
            p,
            key_text(es[i].0->Str_0),
            es[i].1,
            depth,
            room,
        )
}

/// Whether there is a field of the name that the value fits.
pub open spec fn fits_named(
    ps: Seq<ProtoDef>,
    p: ProtoDef,
    name: Seq<char>,
    v: Val,
    depth: nat,
    room: int,
) -> bool
    decreases levels_left(depth), 7nat,
    when depth <= MAX_DEPTH
{
    field_place(p.fields, name) >= 0 && fits_field(
        ps,
        p.fields[field_place(p.fields, name)],
        v,
        depth,
        room,
    )
}

/// Whether a value fits a field: is one value of its type, a sequence of them,
/// or a map of them under keys of the key type.
pub open spec fn fits_field(ps: Seq<ProtoDef>, f: FieldDef, v: Val, depth: nat, room: int) -> bool
    decreases levels_left(depth), 6nat,
    when depth <= MAX_DEPTH
{
    match f.container {
        Container::Scalar => fits_type(ps, f.value, v, depth, room),
        Container::Array => v matches Val::Table(t) && (t.entries().len() == 0 || strict_len(t) > 0
            && room >= 4 && forall|i: int|
            0 <= i < t.array.len() ==> fits_type(
                ps,
                f.value,
                #[trigger] t.array[i],
                depth,
                room - 1,
            )),
        Container::Object { key } => v matches Val::Table(t) && room >= 6 && forall|i: int|
            0 <= i < t.entries().len() ==> {
                let e = #[trigger] t.entries()[i];
                &&& e.0 == Val::Int(1) ==> t.object
                &&& accepted(key, e.0)
                &&& fits_type(ps, f.value, e.1, depth, room - 2)
            },
    }
}

/// Whether a value is one of a type.
pub open spec fn fits_type(ps: Seq<ProtoDef>, vt: ValueType, v: Val, depth: nat, room: int) -> bool
    decreases levels_left(depth), 1nat,
    when depth <= MAX_DEPTH
{
    match vt {
        ValueType::Prim(p) => accepted(p, v),
        ValueType::Ref(i) => fits(ps, i as int, v, depth + 1, room),
    }
}

/// A check complains exactly about the tables that do not fit their proto,
/// whatever the path to them.
pub proof fn law_no_complaint_means_fit(
    ps: Seq<ProtoDef>,
    idx: int,
    v: Val,
    trace: Seq<Seq<char>>,
    depth: nat,
    room: int,
)
    ensures
        complaint(ps, idx, v, trace, depth, room) is None <==> fits(ps, idx, v, depth, room),
    decreases levels_left(depth), 9nat, 0nat,
{
    if depth <= MAX_DEPTH && room >= 8 {
        if let Val::Table(t) = v {
            if ps[idx].wrapper {
                lemma_named(ps, ps[idx], "data"@, v, trace, depth, room);
            } else {
                lemma_entries(ps, ps[idx], t.entries(), trace, depth, room - 2);
            }
        }
    }
}

proof fn lemma_entries(
    ps: Seq<ProtoDef>,
    p: ProtoDef,
    es: Seq<(Val, Val)>,
    trace: Seq<Seq<char>>,
    depth: nat,
    room: int,
)
    requires
        depth <= MAX_DEPTH,
    ensures
        entries_complaint(ps, p, es, trace, depth, room) is None <==> fits_entries(
            ps,
            p,
            es,
            depth,
            room,
        ),
    decreases levels_left(depth), 8nat, es.len(),
{
    if es.len() > 0 {
        let rest = es.skip(1);
        if let Val::Str(b, _) = es[0].0 {
            lemma_named(ps, p, key_text(b), es[0].1, trace, depth, room);
        }
        lemma_entries(ps, p, rest, trace, depth, room);
        if entries_complaint(ps, p, es, trace, depth, room) is None {
            assert forall|i: int| 0 <= i < es.len() implies (#[trigger] es[i]).0 is Str
                && fits_named(ps, p, key_text(es[i].0->Str_0), es[i].1, depth, room) by {
                if i > 0 {
                    assert(es[i] == rest[i - 1]);
                }
            }
        }
        if fits_entries(ps, p, es, depth, room) {
            assert(es[0].0 is Str);
            assert forall|i: int| 0 <= i < rest.len() implies (#[trigger] rest[i]).0 is Str
                && fits_named(ps, p, key_text(rest[i].0->Str_0), rest[i].1, depth, room) by {
                assert(rest[i] == es[i + 1]);
            }
        }
    }
}

proof fn lemma_named(
    ps: Seq<ProtoDef>,
    p: ProtoDef,
    name: Seq<char>,
    v: Val,
    trace: Seq<Seq<char>>,
    depth: nat,
    room: int,
)
    requires
        depth <= MAX_DEPTH,
    ensures
        named_complaint(ps, p, name, v, trace, depth, room) is None <==> fits_named(
            ps,
            p,
            name,
            v,
            depth,
            room,
        ),
    decreases levels_left(depth), 7nat, 0nat,
{
    let place = field_place(p.fields, name);
    if place >= 0 {
        lemma_field(ps, p.fields[place], v, trace, depth, room);
    }
}

proof fn lemma_field(
    ps: Seq<ProtoDef>,
    f: FieldDef,
    v: Val,
    trace: Seq<Seq<char>>,
    depth: nat,
    room: int,
)
    requires
        depth <= MAX_DEPTH,
    ensures
        field_complaint(ps, f, v, trace, depth, room) is None <==> fits_field(
            ps,
            f,
            v,
            depth,
            room,
        ),
    decreases levels_left(depth), 6nat, 0nat,
{
    let tr = trace.push(f.name);
    match f.container {
        Container::Scalar => {
            lemma_type(ps, f.value, v, tr, depth, room);
        },
        Container::Array => {
            if let Val::Table(t) = v {
                if strict_len(t) > 0 {
                    lemma_items(ps, f.value, t.array, 0, tr, depth, room - 1);
                    lemma_strict_has_entries(t);
                }
            }
        },
        Container::Object { key } => {
            if let Val::Table(t) = v {
                lemma_pairs(ps, f.value, key, t.object, t.entries(), tr, depth, room - 2);
            }
        },
    }
}

/// A sequence that is not empty has entries.
proof fn lemma_strict_has_entries(t: Tab)
    requires
        strict_len(t) > 0,
    ensures
        t.entries().len() > 0,
{
    lemma_filled_entries(t.array);
}

proof fn lemma_filled_entries(array: Seq<Val>)
    ensures
        crate::value::array_entries(array).len() == crate::laux::filled(array),
    decreases array.len(),
{
    if array.len() > 0 {
        lemma_filled_entries(array.drop_last());
    }
}

proof fn lemma_type(
    ps: Seq<ProtoDef>,
    vt: ValueType,
    v: Val,
    trace: Seq<Seq<char>>,
    depth: nat,
    room: int,
)
    requires
        depth <= MAX_DEPTH,
    ensures
        value_complaint(ps, vt, v, trace, depth, room) is None <==> fits_type(
            ps,
            vt,
            v,
            depth,
            room,
        ),
    decreases levels_left(depth), 1nat, 0nat,
{
    if let ValueType::Ref(i) = vt {
        law_no_complaint_means_fit(ps, i as int, v, trace, depth + 1, room);
    }
}

proof fn lemma_items(
    ps: Seq<ProtoDef>,
    vt: ValueType,
    items: Seq<Val>,
    i: nat,
    trace: Seq<Seq<char>>,
    depth: nat,
    room: int,
)
    requires
        depth <= MAX_DEPTH,
    ensures
        items_complaint(ps, vt, items, i, trace, depth, room) is None <==> forall|j: int|
            i <= j < items.len() ==> fits_type(ps, vt, #[trigger] items[j], depth, room),
    decreases levels_left(depth), 2nat, items.len() - i,
{
    if i < items.len() {
        lemma_type(ps, vt, items[i as int], trace.push(decimal(i as int + 1)), depth, room);
        lemma_items(ps, vt, items, i + 1, trace, depth, room);
    }
}

/// Whether an entry is a pair of a map.
spec fn fits_pair(
    ps: Seq<ProtoDef>,
    vt: ValueType,
    key: Prim,
    marked: bool,
    e: (Val, Val),
    depth: nat,
    room: int,
) -> bool {
    &&& e.0 == Val::Int(1) ==> marked
    &&& accepted(key, e.0)
    &&& fits_type(ps, vt, e.1, depth, room)
}

proof fn lemma_pairs(
    ps: Seq<ProtoDef>,
    vt: ValueType,
    key: Prim,
    marked: bool,
    es: Seq<(Val, Val)>,
    trace: Seq<Seq<char>>,
    depth: nat,
    room: int,
)
    requires
        depth <= MAX_DEPTH,
    ensures
        pairs_complaint(ps, vt, key, marked, es, trace, depth, room) is None <==> forall|i: int|
            0 <= i < es.len() ==> fits_pair(ps, vt, key, marked, #[trigger] es[i], depth, room),
    decreases levels_left(depth), 2nat, es.len(),
{
    if es.len() > 0 {
        let rest = es.skip(1);
        let tr = trace.push(display_text(Some(es[0].0)));
        lemma_type(ps, vt, es[0].1, tr, depth, room);
        lemma_pairs(ps, vt, key, marked, rest, trace, depth, room);
        if pairs_complaint(ps, vt, key, marked, es, trace, depth, room) is None {
            assert forall|i: int| 0 <= i < es.len() implies fits_pair(
                ps,
                vt,
                key,
                marked,
                #[trigger] es[i],
                depth,
                room,
            ) by {
                if i > 0 {
                    assert(es[i] == rest[i - 1]);
                }
            }
        }
        if forall|i: int|
            0 <= i < es.len() ==> fits_pair(ps, vt, key, marked, #[trigger] es[i], depth, room) {
            assert(fits_pair(ps, vt, key, marked, es[0], depth, room));
            assert forall|i: int| 0 <= i < rest.len() implies fits_pair(
                ps,
                vt,
                key,
                marked,
                #[trigger] rest[i],
                depth,
                room,
            ) by {
                assert(rest[i] == es[i + 1]);
            }
        }
    }
}

} // verus!
