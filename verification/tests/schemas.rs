use moon::laux::{LuaStack, LuaState};
use moon::schema::{Container, Prim, Schema, ValueType};
use moon::schema_load::{build_schema, load};
use moon::schema_verify::{join, validate, Seg};
use moon::value::{LuaNumber, LuaString, LuaType, LuaValue, TableValue};

fn string(s: &str) -> LuaValue {
    LuaValue::String(LuaString { bytes: s.as_bytes().to_vec(), integer: None })
}

fn table(entries: Vec<(LuaValue, LuaValue)>) -> LuaValue {
    let mut t = TableValue::new();
    for (k, v) in entries {
        t.set(k, v);
    }
    t.settle();
    LuaValue::Table(t)
}

fn record(fields: Vec<(&str, LuaValue)>) -> LuaValue {
    table(fields.into_iter().map(|(k, v)| (string(k), v)).collect())
}

fn list(items: Vec<LuaValue>) -> LuaValue {
    table(
        items.into_iter().enumerate().map(|(i, v)| (LuaValue::Integer(i as i64 + 1), v)).collect(),
    )
}

fn field(container: &str, key_type: &str, value_type: &str) -> LuaValue {
    let mut f = vec![("value_type", string(value_type))];
    if !container.is_empty() {
        f.push(("container", string(container)));
    }
    if !key_type.is_empty() {
        f.push(("key_type", string(key_type)));
    }
    record(f)
}

fn stack(slots: Vec<LuaValue>) -> LuaStack {
    LuaStack::new(LuaState(1), slots, 1000)
}

fn player_schema() -> Schema {
    let defs = record(vec![
        (
            "player",
            record(vec![
                ("id", field("", "", "int32")),
                ("name", field("", "", "string")),
                ("scores", field("array", "", "uint32")),
                ("bag", field("object", "int64", "item")),
                ("home", field("", "", "item")),
            ]),
        ),
        ("item", record(vec![("count", field("", "", "uint64"))])),
        ("array_ids", record(vec![("data", field("array", "", "int64"))])),
    ]);
    match load(&stack(vec![defs])) {
        Ok(s) => s,
        Err(e) => panic!("{}", e),
    }
}

fn load_error(defs: LuaValue) -> String {
    match load(&stack(vec![defs])) {
        Ok(_) => panic!("loaded"),
        Err(e) => e,
    }
}

fn check(schema: &Schema, proto: &str, value: LuaValue) -> Result<i32, String> {
    validate(&stack(vec![string(proto), value]), Some(schema))
}

#[test]
fn prim_parse_aliases() {
    assert_eq!(Prim::parse("sint32"), Some(Prim::Int32));
    assert_eq!(Prim::parse("fixed32"), Some(Prim::Uint32));
    assert_eq!(Prim::parse("sfixed64"), Some(Prim::Int64));
    assert_eq!(Prim::parse("fixed64"), Some(Prim::Uint64));
    assert_eq!(Prim::parse("double"), Some(Prim::Float));
    assert_eq!(Prim::parse("bytes"), Some(Prim::Str));
    assert_eq!(Prim::parse("message"), None);
}

#[test]
fn int_range_and_sign_checks() {
    let integer = LuaType::Integer;
    assert!(Prim::Int32.accepts_kind(integer, Some(i32::MAX as i64)));
    assert!(!Prim::Int32.accepts_kind(integer, Some(i32::MAX as i64 + 1)));
    assert!(!Prim::Int32.accepts_kind(integer, Some(i32::MIN as i64 - 1)));

    assert!(Prim::Uint32.accepts_kind(integer, Some(u32::MAX as i64)));
    assert!(!Prim::Uint32.accepts_kind(integer, Some(-1)));
    assert!(!Prim::Uint32.accepts_kind(integer, Some(u32::MAX as i64 + 1)));

    assert!(Prim::Uint64.accepts_kind(integer, Some(i64::MAX)));
    assert!(!Prim::Uint64.accepts_kind(integer, Some(-1)));

    assert!(Prim::Int64.accepts_kind(integer, Some(-1)));
}

#[test]
fn non_integer_types() {
    assert!(Prim::Bool.accepts_kind(LuaType::Boolean, None));
    assert!(!Prim::Bool.accepts_kind(LuaType::Integer, Some(1)));

    // float accepts both floats and integers (Lua numbers).
    assert!(Prim::Float.accepts_kind(LuaType::Number, None));
    assert!(Prim::Float.accepts_kind(LuaType::Integer, Some(3)));
    assert!(!Prim::Float.accepts_kind(LuaType::String, None));

    assert!(Prim::Str.accepts_kind(LuaType::String, None));
    assert!(!Prim::Str.accepts_kind(LuaType::Integer, Some(1)));

    // integer types reject floats.
    assert!(!Prim::Int32.accepts_kind(LuaType::Number, None));
}

#[test]
fn trace_join() {
    let trace = vec![
        Seg::Field("player"),
        Seg::Field("bag"),
        Seg::Index(3),
        Seg::Key("name".to_string()),
    ];
    assert_eq!(join(&trace), "player.bag.3.name");
}

#[test]
fn primitives_name_themselves_and_look_at_the_stack() {
    let names: Vec<&str> = [
        Prim::Int32,
        Prim::Uint32,
        Prim::Int64,
        Prim::Uint64,
        Prim::Float,
        Prim::Bool,
        Prim::Str,
    ]
    .iter()
    .map(|p| p.name())
    .collect();
    assert_eq!(names, vec!["int32", "uint32", "int64", "uint64", "float", "bool", "string"]);
    let lua = stack(vec![LuaValue::Integer(-1), string("x")]);
    assert!(Prim::Int32.accepts_stack(lua.value(1)));
    assert!(!Prim::Uint32.accepts_stack(lua.value(1)));
    assert!(Prim::Str.accepts_stack(lua.value(2)));
    assert!(!Prim::Str.accepts_stack(lua.value(3)));
}

#[test]
fn definitions_are_compiled_with_references_resolved() {
    let schema = player_schema();
    assert_eq!(schema.find("player"), Some(0));
    assert_eq!(schema.find("item"), Some(1));
    assert_eq!(schema.find("nobody"), None);
    let player = &schema.protos[0];
    let bag = &player.fields[player.find("bag").unwrap()];
    assert_eq!(bag.container, Container::Object { key: Prim::Int64 });
    assert_eq!(bag.value, ValueType::Ref(1));
    assert!(!player.wrapper);
    assert!(schema.protos[2].wrapper);
}

#[test]
fn loading_reports_what_is_wrong() {
    assert_eq!(load_error(LuaValue::Nil), "schema.load: table expected");
    assert_eq!(
        load_error(list(vec![LuaValue::Nil, LuaValue::Boolean(true)])),
        "schema.load: proto name must be a string"
    );
    assert_eq!(
        load_error(record(vec![("p", LuaValue::Integer(1))])),
        "schema.load: proto 'p' definition must be a table, got number"
    );
    assert_eq!(
        load_error(record(vec![("p", record(vec![("wrapper", LuaValue::Integer(1))]))])),
        "schema.load: option 'wrapper' must be a boolean, got number"
    );
    assert_eq!(
        load_error(record(vec![("p", list(vec![LuaValue::Integer(1)]))])),
        "schema.load: proto 'p' has a non-string field name"
    );
    assert_eq!(
        load_error(record(vec![("p", record(vec![("f", string("x"))]))])),
        "schema.load: field 'p.f' must be a table, got string"
    );
    assert_eq!(
        load_error(record(vec![("p", record(vec![("f", field("bag", "", "int32"))]))])),
        "schema.load: field 'p.f' has unknown container 'bag'"
    );
    assert_eq!(
        load_error(record(vec![(
            "p",
            record(vec![("f", record(vec![("value_type", LuaValue::Boolean(true))]))])
        )])),
        "schema.load: option 'value_type' must be a string, got boolean"
    );
    assert_eq!(
        load_error(record(vec![("p", record(vec![("f", field("", "", "ghost"))]))])),
        "schema.load: field 'p.f' value_type 'ghost' is not a known primitive or defined proto"
    );
    assert_eq!(
        load_error(record(vec![("p", record(vec![("f", field("object", "p", "int32"))]))])),
        "schema.load: object field 'p.f' requires a primitive key_type, got 'p'"
    );
    assert_eq!(
        load_error(record(vec![(
            "p",
            record(vec![("wrapper", LuaValue::Boolean(true)), ("f", field("", "", "int32"))])
        )])),
        "schema.load: wrapper proto 'p' must define a 'data' field"
    );
    let mut twice = TableValue::new();
    for byte in [0xfeu8, 0xff] {
        let key = LuaValue::String(LuaString { bytes: vec![byte], integer: None });
        twice.set(key, record(vec![]));
    }
    match build_schema(&twice) {
        Ok(_) => panic!("loaded"),
        Err(e) => assert_eq!(e, "schema.load: duplicate proto '\u{fffd}'"),
    }
}

#[test]
fn tables_that_fit_are_accepted() {
    let schema = player_schema();
    let item = |n| record(vec![("count", LuaValue::Integer(n))]);
    let player = record(vec![
        ("id", LuaValue::Integer(7)),
        ("name", string("ann")),
        ("scores", list(vec![LuaValue::Integer(1), LuaValue::Integer(2)])),
        ("bag", table(vec![(LuaValue::Integer(5), item(1))])),
        ("home", item(0)),
    ]);
    assert_eq!(check(&schema, "player", player), Ok(0));
    assert_eq!(check(&schema, "player", record(vec![])), Ok(0));
    assert_eq!(check(&schema, "player", record(vec![("scores", list(vec![]))])), Ok(0));
    assert_eq!(check(&schema, "array_ids", list(vec![LuaValue::Integer(3)])), Ok(0));
}

#[test]
fn tables_that_do_not_fit_are_reported_with_the_path() {
    let schema = player_schema();
    let bad = |proto: &str, v| check(&schema, proto, v).unwrap_err();
    assert_eq!(
        bad("player", record(vec![("id", LuaValue::Integer(1 << 40))])),
        "int32 expected, got number, value '1099511627776'. trace: player.id"
    );
    assert_eq!(
        bad("player", record(vec![("nope", LuaValue::Nil), ("x", LuaValue::Integer(1))])),
        "attempt to index undefined field 'player.x'. trace: player"
    );
    assert_eq!(
        bad("player", list(vec![LuaValue::Integer(1)])),
        "'player' has a non-string key. trace: player"
    );
    assert_eq!(
        bad("player", record(vec![("scores", string("s"))])),
        "array (table) expected, got string. trace: player.scores"
    );
    assert_eq!(
        bad("player", record(vec![("scores", record(vec![("a", LuaValue::Integer(1))]))])),
        "not a valid array (sequence) table. trace: player.scores"
    );
    assert_eq!(
        bad(
            "player",
            record(vec![("scores", list(vec![LuaValue::Integer(1), LuaValue::Integer(-1)]))])
        ),
        "uint32 expected, got number, value '-1'. trace: player.scores.2"
    );
    assert_eq!(
        bad("player", record(vec![("bag", LuaValue::Integer(1))])),
        "object (table) expected, got number. trace: player.bag"
    );
    assert_eq!(
        bad("player", record(vec![("bag", list(vec![record(vec![])]))])),
        "object table uses integer key=1 but is missing metafield '__object'. trace: player.bag"
    );
    assert_eq!(
        bad("player", record(vec![("bag", record(vec![("k", record(vec![]))]))])),
        "$key int64 expected, got string. trace: player.bag.k"
    );
    assert_eq!(
        bad(
            "player",
            record(vec![(
                "bag",
                table(vec![(
                    LuaValue::Integer(5),
                    record(vec![("count", LuaValue::Boolean(true))])
                )])
            )])
        ),
        "uint64 expected, got boolean, value 'true'. trace: player.bag.5.count"
    );
    assert_eq!(
        bad("player", record(vec![("home", LuaValue::Integer(2))])),
        "'item' table expected, got number. trace: player.home"
    );
    let float = LuaValue::Number(LuaNumber { bits: 2.5f64.to_bits(), text: "2.5".to_string() });
    assert_eq!(
        bad("player", record(vec![("id", float)])),
        "int32 expected, got number, value '2.5'. trace: player.id"
    );
}

#[test]
fn marked_maps_may_use_the_key_one() {
    let schema = player_schema();
    let mut bag = match list(vec![record(vec![])]) {
        LuaValue::Table(t) => t,
        _ => unreachable!(),
    };
    bag.object = true;
    assert_eq!(check(&schema, "player", record(vec![("bag", LuaValue::Table(bag))])), Ok(0));
}

#[test]
fn nesting_and_stack_are_bounded() {
    let defs = record(vec![("node", record(vec![("next", field("", "", "node"))]))]);
    let schema = match load(&stack(vec![defs])) {
        Ok(s) => s,
        Err(e) => panic!("{}", e),
    };
    let chain = |n: usize| {
        let mut v = record(vec![]);
        for _ in 0..n {
            v = record(vec![("next", v)]);
        }
        v
    };
    assert_eq!(check(&schema, "node", chain(64)), Ok(0));
    let error = check(&schema, "node", chain(65)).unwrap_err();
    assert!(error.starts_with("schema: nesting exceeds 64 levels (cyclic data?). trace: node.next"));
    let small = LuaStack::new(LuaState(1), vec![string("node"), chain(1)], 10);
    assert_eq!(validate(&small, Some(&schema)).unwrap_err(), "stack overflow (schema.verify)");
}

#[test]
fn validate_checks_its_arguments_first() {
    let schema = player_schema();
    let run = |slots, s: Option<&Schema>| validate(&stack(slots), s).unwrap_err();
    assert_eq!(
        run(vec![LuaValue::Integer(1)], Some(&schema)),
        "bad argument #1 (valid UTF-8 string expected)"
    );
    assert_eq!(run(vec![string("player")], Some(&schema)), "schema.validate: table expected");
    assert_eq!(
        run(vec![string("player"), record(vec![])], None),
        "schema.validate: no schema has been loaded"
    );
    assert_eq!(
        run(vec![string("ghost"), record(vec![])], Some(&schema)),
        "schema.validate: attempt to use undefined proto 'ghost'"
    );
}
