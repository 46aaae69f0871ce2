//! What schemas say of the tables that they are loaded from and checked against.
use vstd::prelude::*;
use vstd::string::*;
use vstd::utf8::*;

use crate::laux::{display_text, field_key, strict_len};
use crate::schema::{
    accepted, field_place, kind_accepted, lemma_field_place, lemma_proto_place, prim_name,
    prim_of, proto_place, sound, Container, FieldDef, Prim, ProtoDef, ValueType,
};
use crate::schema_load::{
    def_place, first_duplicate, lemma_def_place, option_text, or_empty, raw_def, raw_defs,
    raw_field, raw_fields, resolved, resolved_field, resolved_fields, resolved_proto, schema_of,
    with_field, RawDef, RawFieldDef,
};
use crate::schema_verify::{
    answer, array_complaint, complaint, entries_complaint, field_complaint, fits,
    items_complaint, key_text, law_no_complaint_means_fit, named_complaint, object_complaint,
    pairs_complaint, prim_complaint, trace_text, value_complaint, MAX_DEPTH,
};
use crate::text::{decimal, lossy_text};
use crate::value::{kind_name, kind_of, LuaType, Tab, Val};

verus! {

/// The values of a primitive type: the integers from its least to its largest, as
/// far as the machine has them; any number; either switch; any string.
pub open spec fn in_range(p: Prim, v: Val) -> bool {
    match p {
        Prim::Int32 => v matches Val::Int(n) && -0x8000_0000 <= n <= 0x7fff_ffff,
        Prim::Uint32 => v matches Val::Int(n) && 0 <= n <= 0xffff_ffff,
        Prim::Int64 => v is Int,
        Prim::Uint64 => v matches Val::Int(n) && 0 <= n,
        Prim::Float => v is Int || v is Num,
        Prim::Bool => v is Bool,
        Prim::Str => v is Str,
    }
}

/// A primitive accepts exactly the values in its range, and a check against it
/// complains of exactly the others, wherever they are.
pub proof fn law_primitives_accept_their_range(p: Prim, v: Val, trace: Seq<Seq<char>>)
    ensures
        accepted(p, v) <==> in_range(p, v),
        prim_complaint(p, v, trace) is None <==> in_range(p, v),
{
}

/// What is accepted of an integer is decided by the integer: every one is a signed
/// number of 64 bits and a float, those that are not negative are unsigned ones,
/// and the shorter types take what fits their width.
pub proof fn law_integers_fit_by_width(n: i64)
    ensures
        kind_accepted(Prim::Int64, LuaType::Integer, Some(n)),
        kind_accepted(Prim::Float, LuaType::Integer, Some(n)),
        kind_accepted(Prim::Uint64, LuaType::Integer, Some(n)) <==> n >= 0,
        kind_accepted(Prim::Int32, LuaType::Integer, Some(n)) <==> -0x8000_0000 <= n <= 0x7fff_ffff,
        kind_accepted(Prim::Uint32, LuaType::Integer, Some(n)) <==> 0 <= n <= 0xffff_ffff,
        !kind_accepted(Prim::Bool, LuaType::Integer, Some(n)),
        !kind_accepted(Prim::Str, LuaType::Integer, Some(n)),
{
}

/// The names of a primitive type.
pub open spec fn names_prim(p: Prim, name: Seq<char>) -> bool {
    match p {
        Prim::Int32 => name == "int32"@ || name == "sint32"@ || name == "sfixed32"@,
        Prim::Uint32 => name == "uint32"@ || name == "fixed32"@,
        Prim::Int64 => name == "int64"@ || name == "sint64"@ || name == "sfixed64"@,
        Prim::Uint64 => name == "uint64"@ || name == "fixed64"@,
        Prim::Float => name == "float"@ || name == "double"@,
        Prim::Bool => name == "bool"@,
        Prim::Str => name == "string"@ || name == "bytes"@,
    }
}

/// A type name stands for the primitive that it names, and any other text for
/// none; the name of a primitive in messages is one of its names.
pub proof fn law_type_names_stand_for_their_types(p: Prim, name: Seq<char>)
    ensures
        prim_of(name) == Some(p) <==> names_prim(p, name),
        prim_of(prim_name(p)) == Some(p),
{
    reveal_strlit("int32");
    assert("int32"@.len() == 5);
    reveal_strlit("sint32");
    assert("sint32"@.len() == 6);
    reveal_strlit("sfixed32");
    assert("sfixed32"@.len() == 8);
    reveal_strlit("uint32");
    assert("uint32"@.len() == 6);
    reveal_strlit("fixed32");
    assert("fixed32"@.len() == 7);
    reveal_strlit("int64");
    assert("int64"@.len() == 5);
    reveal_strlit("sint64");
    assert("sint64"@.len() == 6);
    reveal_strlit("sfixed64");
    assert("sfixed64"@.len() == 8);
    reveal_strlit("uint64");
    assert("uint64"@.len() == 6);
    reveal_strlit("fixed64");
    assert("fixed64"@.len() == 7);
    reveal_strlit("float");
    assert("float"@.len() == 5);
    reveal_strlit("double");
    assert("double"@.len() == 6);
    reveal_strlit("bool");
    assert("bool"@.len() == 4);
    reveal_strlit("string");
    assert("string"@.len() == 6);
    reveal_strlit("bytes");
    assert("bytes"@.len() == 5);
    assert("int32"@[3] != "int64"@[3]);
    assert("int32"@[0] != "float"@[0]);
    assert("int32"@[0] != "bytes"@[0]);
    assert("sint32"@[0] != "uint32"@[0]);
    assert("sint32"@[4] != "sint64"@[4]);
    assert("sint32"@[0] != "uint64"@[0]);
    assert("sint32"@[0] != "double"@[0]);
    assert("sint32"@[1] != "string"@[1]);
    assert("sfixed32"@[6] != "sfixed64"@[6]);
    assert("uint32"@[0] != "sint64"@[0]);
    assert("uint32"@[4] != "uint64"@[4]);
    assert("uint32"@[0] != "double"@[0]);
    assert("uint32"@[0] != "string"@[0]);
    assert("fixed32"@[5] != "fixed64"@[5]);
    assert("int64"@[0] != "float"@[0]);
    assert("int64"@[0] != "bytes"@[0]);
    assert("sint64"@[0] != "uint64"@[0]);
    assert("sint64"@[0] != "double"@[0]);
    assert("sint64"@[1] != "string"@[1]);
    assert("uint64"@[0] != "double"@[0]);
    assert("uint64"@[0] != "string"@[0]);
    assert("float"@[0] != "bytes"@[0]);
    assert("double"@[0] != "string"@[0]);
}

/// The text of an option, if it is one.
pub open spec fn told(t: Tab, key: &str) -> Option<Seq<char>> {
    match t.get(field_key(key)) {
        Val::Str(b, _) => Some(lossy_text(b)),
        _ => None,
    }
}

/// A text, or none at all.
pub open spec fn told_or_empty(t: Tab, key: &str) -> Seq<char> {
    match told(t, key) {
        Some(s) => s,
        None => ""@,
    }
}

/// A field of a loaded schema is what a table defines: its container is the one
/// named, a single value where none is; its values are of the primitive named, or
/// tables of the proto of that name; and the keys of a map are of the primitive
/// named for them.
pub open spec fn field_as_defined(ps: Seq<ProtoDef>, f: FieldDef, t: Tab) -> bool {
    &&& match f.container {
        Container::Scalar => told_or_empty(t, "container") == ""@,
        Container::Array => told(t, "container") == Some("array"@),
        Container::Object { key } => told(t, "container") == Some("object"@) && names_prim(
            key,
            told_or_empty(t, "key_type"),
        ),
    }
    &&& match f.value {
        ValueType::Prim(p) => names_prim(p, told_or_empty(t, "value_type")),
        ValueType::Ref(k) => 0 <= k < ps.len() && ps[k as int].name == told_or_empty(
            t,
            "value_type",
        ),
    }
}

/// An entry of a proto's table that defines a field.
spec fn raw_from(proto: Seq<char>, e: (Val, Val), f: RawFieldDef) -> bool {
    &&& e.0 is Str
    &&& e.1 is Table
    &&& lossy_text(e.0->Str_0) != "wrapper"@
    &&& raw_field(proto, lossy_text(e.0->Str_0), e.1->Table_0) == Ok::<RawFieldDef, Seq<char>>(f)
}

/// A field comes from one of the entries.
spec fn has_source(proto: Seq<char>, es: Seq<(Val, Val)>, f: RawFieldDef) -> bool {
    exists|j: int| 0 <= j < es.len() && raw_from(proto, #[trigger] es[j], f)
}

/// An entry is the mark of a wrapper, or one of the fields comes from it.
spec fn has_field(proto: Seq<char>, e: (Val, Val), fs: Seq<RawFieldDef>) -> bool {
    e.0 is Str && (lossy_text(e.0->Str_0) == "wrapper"@ || exists|k: int|
        0 <= k < fs.len() && raw_from(proto, e, #[trigger] fs[k]))
}

proof fn lemma_source_shifts(proto: Seq<char>, es: Seq<(Val, Val)>, f: RawFieldDef)
    requires
        es.len() > 0,
        has_source(proto, es.skip(1), f),
    ensures
        has_source(proto, es, f),
{
    let rest = es.skip(1);
    let j = choose|j: int| 0 <= j < rest.len() && raw_from(proto, #[trigger] rest[j], f);
    assert(raw_from(proto, es[j + 1], f));
}

proof fn lemma_raw_fields(proto: Seq<char>, es: Seq<(Val, Val)>, done: Seq<RawFieldDef>)
    ensures
        raw_fields(proto, es, done) matches Ok(fs) ==> {
            &&& done.len() <= fs.len()
            &&& fs.take(done.len() as int) == done
            &&& forall|k: int|
                done.len() <= k < fs.len() ==> has_source(proto, es, #[trigger] fs[k])
            &&& forall|j: int| 0 <= j < es.len() ==> has_field(proto, #[trigger] es[j], fs)
        },
    decreases es.len(),
{
    if es.len() == 0 {
        assert(done.take(done.len() as int) =~= done);
    } else if let Val::Str(b, _) = es[0].0 {
        let rest = es.skip(1);
        let name = lossy_text(b);
        let t = es[0].1->Table_0;
        let marked = name == "wrapper"@;
        let f = raw_field(proto, name, t)->Ok_0;
        let next = if marked {
            done
        } else {
            done.push(f)
        };
        if let Ok(fs) = raw_fields(proto, es, done) {
            lemma_raw_fields(proto, rest, next);
            if !marked {
                assert(fs.take(next.len() as int)[done.len() as int] == f);
                assert(raw_from(proto, es[0], fs[done.len() as int]));
                assert(has_field(proto, es[0], fs));
                assert(has_source(proto, es, fs[done.len() as int]));
            }
            assert(fs.take(done.len() as int) =~= next.take(done.len() as int)) by {
                assert(fs.take(next.len() as int) == next);
                assert forall|k: int| 0 <= k < done.len() implies fs[k] == next[k] by {
                    assert(fs.take(next.len() as int)[k] == next[k]);
                }
            }
            assert(next.take(done.len() as int) =~= done);
            assert forall|k: int| done.len() <= k < fs.len() implies has_source(
                proto,
                es,
                #[trigger] fs[k],
            ) by {
                if k >= next.len() {
                    lemma_source_shifts(proto, es, fs[k]);
                }
            }
            assert forall|j: int| 0 <= j < es.len() implies has_field(
                proto,
                #[trigger] es[j],
                fs,
            ) by {
                if j > 0 {
                    assert(es[j] == rest[j - 1]);
                }
            }
        }
    }
}

/// A field of a proto that a definition was resolved to.
spec fn resolved_from(raws: Seq<RawDef>, proto: Seq<char>, r: RawFieldDef, f: FieldDef) -> bool {
    resolved_field(raws, proto, r) == Ok::<FieldDef, Seq<char>>(f)
}

/// A field was resolved from one of the definitions.
spec fn resolved_of(
    raws: Seq<RawDef>,
    proto: Seq<char>,
    fs: Seq<RawFieldDef>,
    f: FieldDef,
) -> bool {
    exists|j: int| 0 <= j < fs.len() && resolved_from(raws, proto, #[trigger] fs[j], f)
}

/// There is a field of a name.
pub open spec fn has_name(fs: Seq<FieldDef>, name: Seq<char>) -> bool {
    exists|k: int| 0 <= k < fs.len() && (#[trigger] fs[k]).name == name
}

proof fn lemma_resolved_fields(
    raws: Seq<RawDef>,
    proto: Seq<char>,
    fs: Seq<RawFieldDef>,
    done: Seq<FieldDef>,
)
    ensures
        resolved_fields(raws, proto, fs, done) matches Ok(out) ==> {
            &&& forall|k: int|
                0 <= k < out.len() ==> resolved_of(raws, proto, fs, #[trigger] out[k])
                    || done.contains(out[k])
            &&& forall|j: int| 0 <= j < fs.len() ==> has_name(out, (#[trigger] fs[j]).name)
            &&& forall|d: int| 0 <= d < done.len() ==> has_name(out, (#[trigger] done[d]).name)
        },
    decreases fs.len(),
{
    if fs.len() == 0 {
        assert forall|d: int| 0 <= d < done.len() implies has_name(
            done,
            (#[trigger] done[d]).name,
        ) by {}
    } else if let Ok(f) = resolved_field(raws, proto, fs[0]) {
        let rest = fs.skip(1);
        let next = with_field(done, f);
        let place = field_place(done, f.name);
        lemma_field_place(done, f.name);
        let at = if place >= 0 {
            place
        } else {
            done.len() as int
        };
        assert(next[at] == f);
        assert(f.name == fs[0].name);
        if let Ok(out) = resolved_fields(raws, proto, fs, done) {
            lemma_resolved_fields(raws, proto, rest, next);
            assert forall|k: int| 0 <= k < out.len() implies resolved_of(
                raws,
                proto,
                fs,
                #[trigger] out[k],
            ) || done.contains(out[k]) by {
                if resolved_of(raws, proto, rest, out[k]) {
                    let j = choose|j: int|
                        0 <= j < rest.len() && resolved_from(
                            raws,
                            proto,
                            #[trigger] rest[j],
                            out[k],
                        );
                    assert(resolved_from(raws, proto, fs[j + 1], out[k]));
                } else {
                    let d = choose|d: int| 0 <= d < next.len() && #[trigger] next[d] == out[k];
                    if d == at {
                        assert(resolved_from(raws, proto, fs[0], out[k]));
                    } else {
                        assert(done[d] == out[k]);
                    }
                }
            }
            assert forall|j: int| 0 <= j < fs.len() implies has_name(
                out,
                (#[trigger] fs[j]).name,
            ) by {
                if j > 0 {
                    assert(rest[j - 1] == fs[j]);
                } else {
                    assert(has_name(out, next[at].name));
                }
            }
            assert forall|d: int| 0 <= d < done.len() implies has_name(
                out,
                (#[trigger] done[d]).name,
            ) by {
                assert(next[d].name == done[d].name);
                assert(has_name(out, next[d].name));
            }
        }
    }
}

/// What a resolved field says is what its table defines.
proof fn lemma_field_as_defined(
    raws: Seq<RawDef>,
    ps: Seq<ProtoDef>,
    proto: Seq<char>,
    e: (Val, Val),
    r: RawFieldDef,
    f: FieldDef,
)
    requires
        raws.len() == ps.len() <= u32::MAX,
        forall|i: int| 0 <= i < ps.len() ==> (#[trigger] ps[i]).name == raws[i].name,
        raw_from(proto, e, r),
        resolved_from(raws, proto, r, f),
    ensures
        f.name == lossy_text(e.0->Str_0),
        field_as_defined(ps, f, e.1->Table_0),
{
    let t = e.1->Table_0;
    let vt = or_empty(r.value_type);
    let kt = or_empty(r.key_type);
    lemma_def_place(raws, vt);
    assert(vt == told_or_empty(t, "value_type"));
    assert(kt == told_or_empty(t, "key_type"));
    assert(option_text(t, "container") matches Ok(c) && c == told(t, "container"));
    match f.value {
        ValueType::Prim(p) => {
            law_type_names_stand_for_their_types(p, vt);
        },
        ValueType::Ref(k) => {
            assert(ps[k as int].name == raws[k as int].name);
        },
    }
    if let Container::Object { key } = f.container {
        law_type_names_stand_for_their_types(key, kt);
    }
}

proof fn lemma_raw_defs(es: Seq<(Val, Val)>, done: Seq<RawDef>)
    ensures
        raw_defs(es, done) matches Ok(raws) ==> {
            &&& raws.len() == done.len() + es.len()
            &&& forall|i: int| 0 <= i < done.len() ==> #[trigger] raws[i] == done[i]
            &&& forall|i: int|
                0 <= i < es.len() ==> (#[trigger] es[i]).0 is Str && es[i].1 is Table && raw_def(
                    lossy_text(es[i].0->Str_0),
                    es[i].1->Table_0,
                ) == Ok::<RawDef, Seq<char>>(raws[done.len() + i])
        },
    decreases es.len(),
{
    if es.len() > 0 {
        let rest = es.skip(1);
        if let Val::Str(b, _) = es[0].0 {
            if let Val::Table(t) = es[0].1 {
                if let Ok(d) = raw_def(lossy_text(b), t) {
                    let next = done.push(d);
                    lemma_raw_defs(rest, next);
                    if let Ok(raws) = raw_defs(es, done) {
                        assert forall|i: int| 0 <= i < done.len() implies #[trigger] raws[i]
                            == done[i] by {
                            assert(next[i] == done[i]);
                        }
                        assert(raws[done.len() as int] == next[done.len() as int]);
                        assert forall|i: int| 0 <= i < es.len() implies (#[trigger] es[i]).0 is Str
                            && es[i].1 is Table && raw_def(
                            lossy_text(es[i].0->Str_0),
                            es[i].1->Table_0,
                        ) == Ok::<RawDef, Seq<char>>(raws[done.len() + i]) by {
                            if i > 0 {
                                assert(rest[i - 1] == es[i]);
                                assert(next.len() + (i - 1) == done.len() + i);
                            }
                        }
                    }
                }
            }
        }
    }
}

proof fn lemma_resolved(raws: Seq<RawDef>, rest: Seq<RawDef>, done: Seq<ProtoDef>)
    ensures
        resolved(raws, rest, done) matches Ok(ps) ==> {
            &&& ps.len() == done.len() + rest.len()
            &&& forall|i: int| 0 <= i < done.len() ==> #[trigger] ps[i] == done[i]
            &&& forall|i: int|
                0 <= i < rest.len() ==> resolved_proto(raws, #[trigger] rest[i]) == Ok::<
                    ProtoDef,
                    Seq<char>,
                >(ps[done.len() + i])
        },
    decreases rest.len(),
{
    if rest.len() > 0 {
        if let Ok(p) = resolved_proto(raws, rest[0]) {
            let next = done.push(p);
            let more = rest.skip(1);
            lemma_resolved(raws, more, next);
            if let Ok(ps) = resolved(raws, rest, done) {
                assert forall|i: int| 0 <= i < done.len() implies #[trigger] ps[i] == done[i] by {
                    assert(next[i] == done[i]);
                }
                assert(ps[done.len() as int] == next[done.len() as int]);
                assert forall|i: int| 0 <= i < rest.len() implies resolved_proto(
                    raws,
                    #[trigger] rest[i],
                ) == Ok::<ProtoDef, Seq<char>>(ps[done.len() + i]) by {
                    if i > 0 {
                        assert(more[i - 1] == rest[i]);
                        assert(next.len() + (i - 1) == done.len() + i);
                    }
                }
            }
        }
    }
}

/// Whether an entry of a proto's table defines a field of the loaded schema.
pub open spec fn defines(ps: Seq<ProtoDef>, e: (Val, Val), f: FieldDef) -> bool {
    &&& e.0 is Str
    &&& e.1 is Table
    &&& f.name == lossy_text(e.0->Str_0)
    &&& field_as_defined(ps, f, e.1->Table_0)
}

/// A field is defined by one of the entries.
pub open spec fn defined_by(ps: Seq<ProtoDef>, es: Seq<(Val, Val)>, f: FieldDef) -> bool {
    exists|j: int| 0 <= j < es.len() && defines(ps, #[trigger] es[j], f)
}

/// An entry of a proto's table is the mark of a wrapper or has a field of its name.
pub open spec fn taken_up(p: ProtoDef, e: (Val, Val)) -> bool {
    e.0 is Str && (lossy_text(e.0->Str_0) == "wrapper"@ || has_name(
        p.fields,
        lossy_text(e.0->Str_0),
    ))
}

/// A proto of a loaded schema is what an entry of its table defines. It has the
/// entry's name. It is a wrapper where the entry says so or its name starts with
/// `array_` or `map_`. Every field of it is defined by an entry of its table, and
/// every entry there is taken up.
pub open spec fn proto_as_defined(ps: Seq<ProtoDef>, p: ProtoDef, e: (Val, Val)) -> bool {
    let t = e.1->Table_0;
    &&& e.0 is Str
    &&& e.1 is Table
    &&& p.name == lossy_text(e.0->Str_0)
    &&& p.wrapper <==> (t.get(field_key("wrapper")) == Val::Bool(true) || "array_"@.is_prefix_of(
        p.name,
    ) || "map_"@.is_prefix_of(p.name))
    &&& forall|k: int| 0 <= k < p.fields.len() ==> defined_by(ps, t.entries(), #[trigger] p.fields[k])
    &&& forall|j: int| 0 <= j < t.entries().len() ==> taken_up(p, #[trigger] t.entries()[j])
}

proof fn lemma_proto_as_defined(
    raws: Seq<RawDef>,
    ps: Seq<ProtoDef>,
    e: (Val, Val),
    d: RawDef,
    p: ProtoDef,
)
    requires
        raws.len() == ps.len() <= u32::MAX,
        forall|i: int| 0 <= i < ps.len() ==> (#[trigger] ps[i]).name == raws[i].name,
        e.0 is Str,
        e.1 is Table,
        raw_def(lossy_text(e.0->Str_0), e.1->Table_0) == Ok::<RawDef, Seq<char>>(d),
        resolved_proto(raws, d) == Ok::<ProtoDef, Seq<char>>(p),
    ensures
        proto_as_defined(ps, p, e),
{
    let name = lossy_text(e.0->Str_0);
    let es = e.1->Table_0.entries();
    lemma_raw_fields(name, es, Seq::empty());
    lemma_resolved_fields(raws, name, d.fields, Seq::empty());
    assert forall|k: int| 0 <= k < p.fields.len() implies defined_by(
        ps,
        es,
        #[trigger] p.fields[k],
    ) by {
        let f = p.fields[k];
        assert(resolved_of(raws, name, d.fields, f));
        let m = choose|m: int|
            0 <= m < d.fields.len() && resolved_from(raws, name, #[trigger] d.fields[m], f);
        assert(has_source(name, es, d.fields[m]));
        let j = choose|j: int|
            0 <= j < es.len() && raw_from(name, #[trigger] es[j], d.fields[m]);
        lemma_field_as_defined(raws, ps, name, es[j], d.fields[m], f);
        assert(defines(ps, es[j], f));
    }
    assert forall|j: int| 0 <= j < es.len() implies taken_up(p, #[trigger] es[j]) by {
        assert(has_field(name, es[j], d.fields));
        if lossy_text(es[j].0->Str_0) != "wrapper"@ {
            let m = choose|m: int|
                0 <= m < d.fields.len() && raw_from(name, es[j], #[trigger] d.fields[m]);
            assert(has_name(p.fields, d.fields[m].name));
        }
    }
}

/// A loaded schema is what its table defines: a proto for every entry, in their
/// order, each as its entry says.
pub proof fn law_loaded_schemas_are_as_defined(t: Tab)
    requires
        t.entries().len() <= u32::MAX,
    ensures
        schema_of(t) matches Ok(ps) ==> {
            &&& ps.len() == t.entries().len()
            &&& forall|i: int|
                0 <= i < ps.len() ==> proto_as_defined(ps, #[trigger] ps[i], t.entries()[i])
        },
{
    if let Ok(ps) = schema_of(t) {
        let raws = raw_defs(t.entries(), Seq::empty())->Ok_0;
        lemma_raw_defs(t.entries(), Seq::empty());
        lemma_resolved(raws, raws, Seq::empty());
        assert forall|k: int| 0 <= k < ps.len() implies (#[trigger] ps[k]).name == raws[k].name by {
            assert(resolved_proto(raws, raws[k]) == Ok::<ProtoDef, Seq<char>>(ps[0 + k]));
        }
        assert forall|i: int| 0 <= i < ps.len() implies proto_as_defined(
            ps,
            #[trigger] ps[i],
            t.entries()[i],
        ) by {
            let e = t.entries()[i];
            assert(raw_def(lossy_text(e.0->Str_0), e.1->Table_0) == Ok::<RawDef, Seq<char>>(
                raws[0 + i],
            ));
            assert(resolved_proto(raws, raws[i]) == Ok::<ProtoDef, Seq<char>>(ps[0 + i]));
            lemma_proto_as_defined(raws, ps, e, raws[i], ps[i]);
        }
    }
}

/// A path of names in a message is the first name, a dot and the path of the rest.
pub proof fn law_traces_have_dots_between(first: Seq<char>, rest: Seq<Seq<char>>)
    requires
        first.len() > 0,
        rest.len() > 0,
    ensures
        trace_text(seq![first]) == first,
        trace_text(seq![first] + rest) == first + seq!['.'] + trace_text(rest) || trace_text(
            rest,
        ).len() == 0 || rest[0].len() == 0,
    decreases rest.len(),
{
    let one = seq![first];
    assert(one.drop_last() =~= Seq::empty());
    reveal_with_fuel(trace_text, 2);
    assert(trace_text(one) =~= first);
    let all = one + rest;
    assert(all.drop_last() =~= one + rest.drop_last());
    assert(all.last() == rest.last());
    if rest.len() == 1 {
        assert(rest.drop_last() =~= Seq::empty());
        assert(one + rest.drop_last() =~= one);
        assert(trace_text(rest) =~= rest[0]);
        assert(trace_text(all) =~= first + seq!['.'] + rest[0]);
    } else {
        let less = rest.drop_last();
        law_traces_have_dots_between(first, less);
        if rest[0].len() > 0 {
            lemma_trace_grows(less);
            assert(less[0] == rest[0]);
            let front = trace_text(less);
            assert(trace_text(all) =~= first + seq!['.'] + front + seq!['.'] + rest.last());
            assert(trace_text(all) =~= first + seq!['.'] + trace_text(rest));
        }
    }
}

/// A path that starts with a name is not empty.
proof fn lemma_trace_grows(ts: Seq<Seq<char>>)
    requires
        ts.len() > 0,
        ts[0].len() > 0,
    ensures
        trace_text(ts).len() > 0,
    decreases ts.len(),
{
    if ts.len() > 1 {
        lemma_trace_grows(ts.drop_last());
    }
}

/// A value of another type is reported by the type expected, its kind, itself and
/// the path to it.
pub proof fn law_complaints_say_what_was_expected(p: Prim, v: Val, trace: Seq<Seq<char>>)
    ensures
        !in_range(p, v) ==> prim_complaint(p, v, trace) == Some(
            prim_name(p) + " expected, got "@ + kind_name(kind_of(v)) + ", value '"@ + display_text(
                Some(v),
            ) + "'. trace: "@ + trace_text(trace),
        ),
        prim_name(Prim::Int32) == "int32"@,
        prim_name(Prim::Uint32) == "uint32"@,
        prim_name(Prim::Int64) == "int64"@,
        prim_name(Prim::Uint64) == "uint64"@,
        prim_name(Prim::Float) == "float"@,
        prim_name(Prim::Bool) == "bool"@,
        prim_name(Prim::Str) == "string"@,
{
}

/// A table is accepted as one of a named proto exactly where a schema is loaded,
/// has that proto, and the table fits it.
pub proof fn law_tables_are_accepted_where_they_fit(
    name: Seq<char>,
    coerced: Option<i64>,
    t: Tab,
    ps: Seq<ProtoDef>,
    room: int,
)
    ensures
        answer(
            Some(Val::Str(encode_utf8(name), coerced)),
            Some(Val::Table(t)),
            Some(ps),
            room,
        ) is None <==> exists|i: int|
            0 <= i < ps.len() && (#[trigger] ps[i]).name == name && i == proto_place(ps, name)
                && fits(ps, i, Val::Table(t), 0, room),
        answer(
            Some(Val::Str(encode_utf8(name), coerced)),
            Some(Val::Table(t)),
            None,
            room,
        ) is Some,
{
    encode_utf8_valid_utf8(name);
    encode_utf8_decode_utf8(name);
    lemma_proto_place(ps, name);
    let i = proto_place(ps, name);
    if i >= 0 {
        law_no_complaint_means_fit(ps, i, Val::Table(t), seq![name], 0, room);
        assert(ps[i].name == name);
    }
}

/// In a schema without a name twice, a proto is found by its name, and so is a
/// field of it.
pub proof fn law_protos_are_found_by_name(ps: Seq<ProtoDef>, i: int, k: int)
    requires
        sound(ps),
        0 <= i < ps.len(),
        0 <= k < ps[i].fields.len(),
    ensures
        proto_place(ps, ps[i].name) == i,
        field_place(ps[i].fields, ps[i].fields[k].name) == k,
{
    lemma_proto_place(ps, ps[i].name);
    let j = proto_place(ps, ps[i].name);
    if j < i {
        assert(ps[i].name != ps[i].name);
    } else if i < j {
        assert(ps[i].name != ps[j].name);
    }
    let p = ps[i];
    assert(crate::schema::sound_proto(p, ps.len()));
    lemma_field_place(p.fields, p.fields[k].name);
    let f = field_place(p.fields, p.fields[k].name);
    if f < k {
        assert(p.fields[k].name != p.fields[k].name);
    } else if k < f {
        assert(p.fields[k].name != p.fields[f].name);
    }
}

/// An option is a text or is not there.
pub open spec fn text_or_nothing(t: Tab, key: &str) -> bool {
    t.get(field_key(key)) is Nil || t.get(field_key(key)) is Str
}

/// A type name stands for a primitive or for one of the protos defined.
pub open spec fn known_type(defs: Seq<(Val, Val)>, name: Seq<char>) -> bool {
    (exists|p: Prim| #[trigger] names_prim(p, name)) || (exists|i: int|
        0 <= i < defs.len() && (#[trigger] defs[i]).0 is Str && lossy_text(defs[i].0->Str_0)
            == name)
}

/// A table defines a field: its options are texts, its container is one there is,
/// its values are of a known type, and the keys of a map are primitives.
pub open spec fn well_defined_field(defs: Seq<(Val, Val)>, t: Tab) -> bool {
    let c = told_or_empty(t, "container");
    &&& text_or_nothing(t, "container")
    &&& text_or_nothing(t, "key_type")
    &&& text_or_nothing(t, "value_type")
    &&& c == ""@ || c == "array"@ || c == "object"@
    &&& known_type(defs, told_or_empty(t, "value_type"))
    &&& c == "object"@ ==> exists|p: Prim| #[trigger] names_prim(p, told_or_empty(t, "key_type"))
}

/// An entry of a proto's table defines a field, or is the mark of a wrapper.
pub open spec fn well_defined_entry(defs: Seq<(Val, Val)>, e: (Val, Val)) -> bool {
    e.0 is Str && (lossy_text(e.0->Str_0) == "wrapper"@ || e.1 is Table && well_defined_field(
        defs,
        e.1->Table_0,
    ))
}

/// An entry defines a proto: all entries of its table are well defined, the mark
/// of a wrapper is a switch, and a wrapper has the field `data`.
pub open spec fn well_defined_proto(defs: Seq<(Val, Val)>, e: (Val, Val)) -> bool {
    let t = e.1->Table_0;
    let mark = t.get(field_key("wrapper"));
    &&& e.0 is Str
    &&& e.1 is Table
    &&& mark is Nil || mark is Bool
    &&& forall|j: int|
        0 <= j < t.entries().len() ==> well_defined_entry(defs, #[trigger] t.entries()[j])
    &&& (mark == Val::Bool(true) || "array_"@.is_prefix_of(lossy_text(e.0->Str_0))
        || "map_"@.is_prefix_of(lossy_text(e.0->Str_0))) ==> exists|j: int|
        0 <= j < t.entries().len() && lossy_text((#[trigger] t.entries()[j]).0->Str_0) == "data"@
}

proof fn lemma_raw_fields_ok(
    defs: Seq<(Val, Val)>,
    proto: Seq<char>,
    es: Seq<(Val, Val)>,
    done: Seq<RawFieldDef>,
)
    requires
        forall|j: int| 0 <= j < es.len() ==> well_defined_entry(defs, #[trigger] es[j]),
    ensures
        raw_fields(proto, es, done) is Ok,
    decreases es.len(),
{
    if es.len() > 0 {
        let rest = es.skip(1);
        assert(well_defined_entry(defs, es[0]));
        assert forall|j: int| 0 <= j < rest.len() implies well_defined_entry(
            defs,
            #[trigger] rest[j],
        ) by {
            assert(rest[j] == es[j + 1]);
        }
        let name = lossy_text(es[0].0->Str_0);
        if name == "wrapper"@ {
            lemma_raw_fields_ok(defs, proto, rest, done);
        } else {
            let t = es[0].1->Table_0;
            assert(raw_field(proto, name, t) is Ok);
            lemma_raw_fields_ok(defs, proto, rest, done.push(raw_field(proto, name, t)->Ok_0));
        }
    }
}

proof fn lemma_raw_defs_ok(all: Seq<(Val, Val)>, es: Seq<(Val, Val)>, done: Seq<RawDef>)
    requires
        forall|i: int| 0 <= i < es.len() ==> well_defined_proto(all, #[trigger] es[i]),
    ensures
        raw_defs(es, done) is Ok,
    decreases es.len(),
{
    if es.len() > 0 {
        let rest = es.skip(1);
        assert(well_defined_proto(all, es[0]));
        let name = lossy_text(es[0].0->Str_0);
        let t = es[0].1->Table_0;
        lemma_raw_fields_ok(all, name, t.entries(), Seq::empty());
        assert forall|i: int| 0 <= i < rest.len() implies well_defined_proto(
            all,
            #[trigger] rest[i],
        ) by {
            assert(rest[i] == es[i + 1]);
        }
        assert(raw_def(name, t) is Ok);
        lemma_raw_defs_ok(all, rest, done.push(raw_def(name, t)->Ok_0));
    }
}

proof fn lemma_no_duplicates(raws: Seq<RawDef>, i: int)
    requires
        0 <= i <= raws.len(),
        forall|j: int, k: int|
            0 <= j < k < raws.len() ==> (#[trigger] raws[j]).name != (#[trigger] raws[k]).name,
    ensures
        first_duplicate(raws, i) is None,
    decreases raws.len() - i,
{
    if i < raws.len() {
        let before = raws.take(i);
        lemma_def_place(before, raws[i].name);
        let j = def_place(before, raws[i].name);
        if j >= 0 {
            assert(before[j] == raws[j]);
        }
        lemma_no_duplicates(raws, i + 1);
    }
}

proof fn lemma_field_resolves(
    defs: Seq<(Val, Val)>,
    raws: Seq<RawDef>,
    proto: Seq<char>,
    e: (Val, Val),
    r: RawFieldDef,
)
    requires
        raws.len() == defs.len(),
        forall|i: int|
            0 <= i < defs.len() ==> (#[trigger] raws[i]).name == lossy_text(defs[i].0->Str_0),
        well_defined_entry(defs, e),
        raw_from(proto, e, r),
    ensures
        resolved_field(raws, proto, r) is Ok,
{
    let t = e.1->Table_0;
    let vt = or_empty(r.value_type);
    let kt = or_empty(r.key_type);
    assert(vt == told_or_empty(t, "value_type"));
    assert(kt == told_or_empty(t, "key_type"));
    assert(option_text(t, "container") matches Ok(c) && c == told(t, "container"));
    assert(known_type(defs, vt));
    lemma_def_place(raws, vt);
    if exists|p: Prim| #[trigger] names_prim(p, vt) {
        let p = choose|p: Prim| #[trigger] names_prim(p, vt);
        law_type_names_stand_for_their_types(p, vt);
    } else {
        let i = choose|i: int|
            0 <= i < defs.len() && (#[trigger] defs[i]).0 is Str && lossy_text(defs[i].0->Str_0)
                == vt;
        assert(raws[i].name == vt);
    }
    if told_or_empty(t, "container") == "object"@ {
        let p = choose|p: Prim| #[trigger] names_prim(p, kt);
        law_type_names_stand_for_their_types(p, kt);
    } else {
        lemma_containers_differ();
    }
}

proof fn lemma_containers_differ()
    ensures
        ""@ != "array"@,
        ""@ != "object"@,
        "array"@ != "object"@,
{
    reveal_strlit("");
    reveal_strlit("array");
    reveal_strlit("object");
    assert(""@.len() == 0);
    assert("array"@.len() == 5);
    assert("object"@.len() == 6);
}

proof fn lemma_fields_resolve(
    raws: Seq<RawDef>,
    proto: Seq<char>,
    fs: Seq<RawFieldDef>,
    done: Seq<FieldDef>,
)
    requires
        forall|j: int| 0 <= j < fs.len() ==> resolved_field(raws, proto, #[trigger] fs[j]) is Ok,
    ensures
        resolved_fields(raws, proto, fs, done) is Ok,
    decreases fs.len(),
{
    if fs.len() > 0 {
        assert(resolved_field(raws, proto, fs[0]) is Ok);
        let rest = fs.skip(1);
        assert forall|j: int| 0 <= j < rest.len() implies resolved_field(
            raws,
            proto,
            #[trigger] rest[j],
        ) is Ok by {
            assert(rest[j] == fs[j + 1]);
        }
        lemma_fields_resolve(
            raws,
            proto,
            rest,
            with_field(done, resolved_field(raws, proto, fs[0])->Ok_0),
        );
    }
}

proof fn lemma_proto_resolves(
    defs: Seq<(Val, Val)>,
    raws: Seq<RawDef>,
    e: (Val, Val),
    d: RawDef,
)
    requires
        raws.len() == defs.len(),
        forall|i: int|
            0 <= i < defs.len() ==> (#[trigger] raws[i]).name == lossy_text(defs[i].0->Str_0),
        well_defined_proto(defs, e),
        raw_def(lossy_text(e.0->Str_0), e.1->Table_0) == Ok::<RawDef, Seq<char>>(d),
    ensures
        resolved_proto(raws, d) is Ok,
{
    let name = lossy_text(e.0->Str_0);
    let es = e.1->Table_0.entries();
    lemma_raw_fields(name, es, Seq::empty());
    assert forall|m: int| 0 <= m < d.fields.len() implies resolved_field(
        raws,
        name,
        #[trigger] d.fields[m],
    ) is Ok by {
        assert(has_source(name, es, d.fields[m]));
        let j = choose|j: int| 0 <= j < es.len() && raw_from(name, #[trigger] es[j], d.fields[m]);
        assert(well_defined_entry(defs, es[j]));
        lemma_field_resolves(defs, raws, name, es[j], d.fields[m]);
    }
    lemma_fields_resolve(raws, name, d.fields, Seq::empty());
    lemma_resolved_fields(raws, name, d.fields, Seq::empty());
    let out = resolved_fields(raws, name, d.fields, Seq::empty())->Ok_0;
    if d.wrapper {
        let j = choose|j: int|
            0 <= j < es.len() && lossy_text((#[trigger] es[j]).0->Str_0) == "data"@;
        assert(has_field(name, es[j], d.fields));
        reveal_strlit("data");
        reveal_strlit("wrapper");
        assert("data"@.len() != "wrapper"@.len());
        let m = choose|m: int|
            0 <= m < d.fields.len() && raw_from(name, es[j], #[trigger] d.fields[m]);
        assert(d.fields[m].name == "data"@);
        assert(has_name(out, d.fields[m].name));
        lemma_field_place(out, "data"@);
    }
}

proof fn lemma_protos_resolve(raws: Seq<RawDef>, rest: Seq<RawDef>, done: Seq<ProtoDef>)
    requires
        forall|i: int| 0 <= i < rest.len() ==> resolved_proto(raws, #[trigger] rest[i]) is Ok,
    ensures
        resolved(raws, rest, done) is Ok,
    decreases rest.len(),
{
    if rest.len() > 0 {
        assert(resolved_proto(raws, rest[0]) is Ok);
        let more = rest.skip(1);
        assert forall|i: int| 0 <= i < more.len() implies resolved_proto(
            raws,
            #[trigger] more[i],
        ) is Ok by {
            assert(more[i] == rest[i + 1]);
        }
        lemma_protos_resolve(raws, more, done.push(resolved_proto(raws, rest[0])->Ok_0));
    }
}

/// A table of well defined protos, none with the name of another, is loaded, however
/// many they are.
pub proof fn law_well_defined_schemas_load(t: Tab)
    requires
        t.entries().len() <= u32::MAX,
        forall|i: int|
            0 <= i < t.entries().len() ==> well_defined_proto(
                t.entries(),
                #[trigger] t.entries()[i],
            ),
        forall|i: int, j: int|
            0 <= i < j < t.entries().len() ==> lossy_text((#[trigger] t.entries()[i]).0->Str_0)
                != lossy_text((#[trigger] t.entries()[j]).0->Str_0),
    ensures
        schema_of(t) is Ok,
{
    let defs = t.entries();
    lemma_raw_defs_ok(defs, defs, Seq::empty());
    lemma_raw_defs(defs, Seq::empty());
    let raws = raw_defs(defs, Seq::empty())->Ok_0;
    assert forall|i: int| 0 <= i < defs.len() implies (#[trigger] raws[i]).name == lossy_text(
        defs[i].0->Str_0,
    ) by {
        assert(raw_def(lossy_text(defs[i].0->Str_0), defs[i].1->Table_0) == Ok::<
            RawDef,
            Seq<char>,
        >(raws[0 + i]));
    }
    assert forall|j: int, k: int| 0 <= j < k < raws.len() implies (#[trigger] raws[j]).name != (
    #[trigger] raws[k]).name by {
        assert(lossy_text(defs[j].0->Str_0) != lossy_text(defs[k].0->Str_0));
    }
    lemma_no_duplicates(raws, 0);
    assert forall|i: int| 0 <= i < raws.len() implies resolved_proto(raws, #[trigger] raws[i])
        is Ok by {
        assert(well_defined_proto(defs, defs[i]));
        assert(raw_def(lossy_text(defs[i].0->Str_0), defs[i].1->Table_0) == Ok::<
            RawDef,
            Seq<char>,
        >(raws[0 + i]));
        lemma_proto_resolves(defs, raws, defs[i], raws[i]);
    }
    lemma_protos_resolve(raws, raws, Seq::empty());
}

/// Protos nest at most 64 deep, a check asks for eight free slots, and what is no
/// table is no proto's.
pub proof fn law_checks_are_bounded(
    ps: Seq<ProtoDef>,
    idx: int,
    v: Val,
    trace: Seq<Seq<char>>,
    depth: nat,
    room: int,
)
    ensures
        depth > 64 ==> complaint(ps, idx, v, trace, depth, room) == Some(
            "schema: nesting exceeds 64 levels (cyclic data?). trace: "@ + trace_text(trace),
        ),
        depth <= 64 && room < 8 ==> complaint(ps, idx, v, trace, depth, room) == Some(
            "stack overflow (schema.verify)"@,
        ),
        depth <= 64 && room >= 8 && !(v is Table) ==> complaint(ps, idx, v, trace, depth, room)
            == Some(
            "'"@ + ps[idx].name + "' table expected, got "@ + kind_name(kind_of(v)) + ". trace: "@
                + trace_text(trace),
        ),
        depth <= 64 && room >= 8 && v is Table && !ps[idx].wrapper && v->Table_0.entries().len()
            == 0 ==> complaint(ps, idx, v, trace, depth, room) is None,
{
}

proof fn lemma_first_duplicate(raws: Seq<RawDef>, i: int, j: int, from: int)
    requires
        0 <= from <= i < raws.len(),
        0 <= j < i,
        raws[j].name == raws[i].name,
        forall|a: int, b: int|
            0 <= a < b < i ==> (#[trigger] raws[a]).name != (#[trigger] raws[b]).name,
    ensures
        first_duplicate(raws, from) == Some(raws[i].name),
    decreases i - from,
{
    let before = raws.take(from);
    lemma_def_place(before, raws[from].name);
    let k = def_place(before, raws[from].name);
    if from < i {
        if k >= 0 {
            assert(before[k] == raws[k]);
        }
        lemma_first_duplicate(raws, i, j, from + 1);
    } else {
        assert(before[j] == raws[j]);
    }
}

/// A schema that defines a name twice is refused, and the refusal names the first
/// that comes a second time.
pub proof fn law_duplicates_are_named(t: Tab, raws: Seq<RawDef>, i: int, j: int)
    requires
        raw_defs(t.entries(), Seq::empty()) == Ok::<Seq<RawDef>, Seq<char>>(raws),
        0 <= j < i < raws.len(),
        raws[j].name == raws[i].name,
        forall|a: int, b: int|
            0 <= a < b < i ==> (#[trigger] raws[a]).name != (#[trigger] raws[b]).name,
    ensures
        schema_of(t) == Err::<Seq<ProtoDef>, Seq<char>>(
            "schema.load: duplicate proto '"@ + raws[i].name + "'"@,
        ),
{
    lemma_first_duplicate(raws, i, j, 0);
}

proof fn lemma_items_complaint(
    ps: Seq<ProtoDef>,
    p: Prim,
    items: Seq<Val>,
    i: int,
    from: nat,
    trace: Seq<Seq<char>>,
    depth: nat,
    room: int,
)
    requires
        depth <= MAX_DEPTH,
        from <= i < items.len(),
        forall|j: int| 0 <= j < i ==> in_range(p, #[trigger] items[j]),
        !in_range(p, items[i]),
    ensures
        items_complaint(ps, ValueType::Prim(p), items, from, trace, depth, room) == prim_complaint(
            p,
            items[i],
            trace.push(decimal(i + 1)),
        ),
    decreases i - from,
{
    reveal_with_fuel(value_complaint, 2);
    reveal_with_fuel(items_complaint, 2);
    law_primitives_accept_their_range(
        p,
        items[from as int],
        trace.push(decimal(from as int + 1)),
    );
    if from < i {
        assert(in_range(p, items[from as int]));
        lemma_items_complaint(ps, p, items, i, from + 1, trace, depth, room);
    }
}

/// A complaint about a sequence is about its first element of the wrong type, and
/// the trace ends in the element's place, counted from one.
pub proof fn law_complaints_name_the_element(
    ps: Seq<ProtoDef>,
    p: Prim,
    t: Tab,
    i: int,
    trace: Seq<Seq<char>>,
    depth: nat,
    room: int,
)
    requires
        depth <= MAX_DEPTH,
        room >= 4,
        strict_len(t) > 0,
        0 <= i < t.array.len(),
        forall|j: int| 0 <= j < i ==> in_range(p, #[trigger] t.array[j]),
        !in_range(p, t.array[i]),
    ensures
        array_complaint(ps, ValueType::Prim(p), Val::Table(t), trace, depth, room) == Some(
            prim_name(p) + " expected, got "@ + kind_name(kind_of(t.array[i])) + ", value '"@
                + display_text(Some(t.array[i])) + "'. trace: "@ + trace_text(
                trace.push(decimal(i + 1)),
            ),
        ),
{
    lemma_items_complaint(ps, p, t.array, i, 0, trace, depth, room - 1);
    law_complaints_say_what_was_expected(p, t.array[i], trace.push(decimal(i + 1)));
}

/// Whether an entry is a pair of a map from one primitive type to another.
pub open spec fn pair_in_range(key: Prim, p: Prim, marked: bool, e: (Val, Val)) -> bool {
    in_range(key, e.0) && in_range(p, e.1) && (e.0 == Val::Int(1) ==> marked)
}

/// What is said of an entry that is no such pair.
pub open spec fn pair_complaint(
    key: Prim,
    p: Prim,
    marked: bool,
    e: (Val, Val),
    trace: Seq<Seq<char>>,
) -> Seq<char> {
    if e.0 == Val::Int(1) && !marked {
        "object table uses integer key=1 but is missing metafield '__object'. trace: "@
            + trace_text(trace)
    } else if !in_range(key, e.0) {
        "$key "@ + prim_name(key) + " expected, got "@ + kind_name(kind_of(e.0)) + ". trace: "@
            + trace_text(trace.push(display_text(Some(e.0))))
    } else {
        prim_name(p) + " expected, got "@ + kind_name(kind_of(e.1)) + ", value '"@ + display_text(
            Some(e.1),
        ) + "'. trace: "@ + trace_text(trace.push(display_text(Some(e.0))))
    }
}

proof fn lemma_pairs_complaint(
    ps: Seq<ProtoDef>,
    key: Prim,
    p: Prim,
    marked: bool,
    es: Seq<(Val, Val)>,
    i: int,
    trace: Seq<Seq<char>>,
    depth: nat,
    room: int,
)
    requires
        depth <= MAX_DEPTH,
        0 <= i < es.len(),
        forall|j: int| 0 <= j < i ==> pair_in_range(key, p, marked, #[trigger] es[j]),
        !pair_in_range(key, p, marked, es[i]),
    ensures
        pairs_complaint(ps, ValueType::Prim(p), key, marked, es, trace, depth, room) == Some(
            pair_complaint(key, p, marked, es[i], trace),
        ),
    decreases es.len(),
{
    reveal_with_fuel(value_complaint, 2);
    reveal_with_fuel(pairs_complaint, 2);
    let tr = trace.push(display_text(Some(es[0].0)));
    law_primitives_accept_their_range(key, es[0].0, tr);
    law_primitives_accept_their_range(p, es[0].1, tr);
    law_complaints_say_what_was_expected(p, es[0].1, tr);
    if i > 0 {
        assert(pair_in_range(key, p, marked, es[0]));
        let rest = es.skip(1);
        assert forall|j: int| 0 <= j < i - 1 implies pair_in_range(
            key,
            p,
            marked,
            #[trigger] rest[j],
        ) by {
            assert(rest[j] == es[j + 1]);
        }
        lemma_pairs_complaint(ps, key, p, marked, rest, i - 1, trace, depth, room);
    }
}

/// A complaint about a map is about its first entry that is no pair of the map, and
/// the trace ends in the entry's key.
pub proof fn law_complaints_name_the_key(
    ps: Seq<ProtoDef>,
    key: Prim,
    p: Prim,
    t: Tab,
    i: int,
    trace: Seq<Seq<char>>,
    depth: nat,
    room: int,
)
    requires
        depth <= MAX_DEPTH,
        room >= 6,
        0 <= i < t.entries().len(),
        forall|j: int| 0 <= j < i ==> pair_in_range(key, p, t.object, #[trigger] t.entries()[j]),
        !pair_in_range(key, p, t.object, t.entries()[i]),
    ensures
        object_complaint(ps, ValueType::Prim(p), key, Val::Table(t), trace, depth, room) == Some(
            pair_complaint(key, p, t.object, t.entries()[i], trace),
        ),
{
    lemma_pairs_complaint(ps, key, p, t.object, t.entries(), i, trace, depth, room - 2);
}

proof fn lemma_entries_complaint(
    ps: Seq<ProtoDef>,
    p: ProtoDef,
    es: Seq<(Val, Val)>,
    i: int,
    trace: Seq<Seq<char>>,
    depth: nat,
    room: int,
)
    requires
        depth <= MAX_DEPTH,
        0 <= i <= es.len(),
        entries_complaint(ps, p, es.take(i), trace, depth, room) is None,
    ensures
        entries_complaint(ps, p, es, trace, depth, room) == entries_complaint(
            ps,
            p,
            es.skip(i),
            trace,
            depth,
            room,
        ),
    decreases i,
{
    if i > 0 {
        assert(es.take(i)[0] == es[0]);
        assert(es.take(i).skip(1) =~= es.skip(1).take(i - 1));
        assert(es.skip(1).skip(i - 1) =~= es.skip(i));
        lemma_entries_complaint(ps, p, es.skip(1), i - 1, trace, depth, room);
    } else {
        assert(es.skip(0) =~= es);
    }
}

/// Whether a schema has no field of a name.
pub open spec fn lacks_field(p: ProtoDef, name: Seq<char>) -> bool {
    forall|k: int| 0 <= k < p.fields.len() ==> (#[trigger] p.fields[k]).name != name
}

/// A table whose entries fit up to one that the schema has no field for, or whose
/// key is no string, is refused for that one.
pub proof fn law_complaints_name_the_unknown_field(
    ps: Seq<ProtoDef>,
    idx: int,
    t: Tab,
    i: int,
    trace: Seq<Seq<char>>,
    depth: nat,
    room: int,
)
    requires
        depth <= MAX_DEPTH,
        room >= 8,
        0 <= idx < ps.len(),
        !ps[idx].wrapper,
        0 <= i < t.entries().len(),
        entries_complaint(ps, ps[idx], t.entries().take(i), trace, depth, room - 2) is None,
    ensures
        !(t.entries()[i].0 is Str) ==> complaint(ps, idx, Val::Table(t), trace, depth, room)
            == Some(
            "'"@ + ps[idx].name + "' has a non-string key. trace: "@ + trace_text(trace),
        ),
        t.entries()[i].0 matches Val::Str(b, _) ==> valid_utf8(b) && lacks_field(
            ps[idx],
            decode_utf8(b),
        ) ==> complaint(ps, idx, Val::Table(t), trace, depth, room) == Some(
            "attempt to index undefined field '"@ + ps[idx].name + "."@ + decode_utf8(b)
                + "'. trace: "@ + trace_text(trace),
        ),
{
    reveal_with_fuel(complaint, 2);
    reveal_with_fuel(entries_complaint, 2);
    reveal_with_fuel(named_complaint, 2);
    let es = t.entries();
    lemma_entries_complaint(ps, ps[idx], es, i, trace, depth, room - 2);
    assert(es.skip(i)[0] == es[i]);
    if let Val::Str(b, _) = es[i].0 {
        lemma_field_place(ps[idx].fields, decode_utf8(b));
        assert(valid_utf8(b) ==> key_text(b) == decode_utf8(b));
    }
}

/// A table whose entries fit up to one of the wrong type for its field is refused
/// for that one, and the trace ends in the field's name.
pub proof fn law_complaints_name_the_field(
    ps: Seq<ProtoDef>,
    idx: int,
    t: Tab,
    i: int,
    k: int,
    p: Prim,
    trace: Seq<Seq<char>>,
    depth: nat,
    room: int,
)
    requires
        depth <= MAX_DEPTH,
        room >= 8,
        0 <= idx < ps.len(),
        !ps[idx].wrapper,
        0 <= i < t.entries().len(),
        entries_complaint(ps, ps[idx], t.entries().take(i), trace, depth, room - 2) is None,
        0 <= k < ps[idx].fields.len(),
        ps[idx].fields[k].container is Scalar,
        ps[idx].fields[k].value == ValueType::Prim(p),
        forall|j: int|
            0 <= j < ps[idx].fields.len() && j != k ==> (#[trigger] ps[idx].fields[j]).name
                != ps[idx].fields[k].name,
        !in_range(p, t.entries()[i].1),
    ensures
        t.entries()[i].0 matches Val::Str(b, _) ==> valid_utf8(b) && decode_utf8(b)
            == ps[idx].fields[k].name ==> complaint(ps, idx, Val::Table(t), trace, depth, room)
            == Some(
            prim_name(p) + " expected, got "@ + kind_name(kind_of(t.entries()[i].1))
                + ", value '"@ + display_text(Some(t.entries()[i].1)) + "'. trace: "@ + trace_text(
                trace.push(ps[idx].fields[k].name),
            ),
        ),
{
    reveal_with_fuel(complaint, 2);
    reveal_with_fuel(entries_complaint, 2);
    reveal_with_fuel(named_complaint, 2);
    reveal_with_fuel(field_complaint, 2);
    reveal_with_fuel(value_complaint, 2);
    let es = t.entries();
    let f = ps[idx].fields[k];
    lemma_entries_complaint(ps, ps[idx], es, i, trace, depth, room - 2);
    assert(es.skip(i)[0] == es[i]);
    law_complaints_say_what_was_expected(p, es[i].1, trace.push(f.name));
    if let Val::Str(b, _) = es[i].0 {
        if valid_utf8(b) && decode_utf8(b) == f.name {
            lemma_field_place(ps[idx].fields, f.name);
            assert(key_text(b) == f.name);
            assert(field_place(ps[idx].fields, f.name) == k);
            let want = prim_complaint(p, es[i].1, trace.push(f.name));
            assert(value_complaint(ps, f.value, es[i].1, trace.push(f.name), depth, room - 2)
                == want);
            assert(field_complaint(ps, f, es[i].1, trace, depth, room - 2) == want);
            assert(named_complaint(ps, ps[idx], f.name, es[i].1, trace, depth, room - 2) == want);
            assert(entries_complaint(ps, ps[idx], es.skip(i), trace, depth, room - 2) == want);
        }
    }
}

} // verus!
