use moon::laux::{
    lua_absindex, lua_checkstack, lua_checktype, lua_null_function, lua_pop, lua_push,
    lua_pushlightuserdata, lua_pushnil, lua_settop, lua_top, lua_type, lua_typename, FromLua,
    LuaArgs, LuaGlobalState, LuaNil, LuaStack, LuaState, LuaThread, LuaTypeError, Metafield,
    LUA_REGISTRYINDEX, LUA_TNUMBER, LUA_TTABLE,
};
use moon::table::LuaTable;
use moon::value::{LuaNumber, LuaString, LuaType, LuaValue, MetaPairs, TableValue};

fn float(x: f64) -> LuaValue {
    LuaValue::Number(LuaNumber { bits: x.to_bits(), text: format!("{}", x) })
}

fn string(s: &str) -> LuaValue {
    LuaValue::String(LuaString { bytes: s.as_bytes().to_vec(), integer: s.parse().ok() })
}

fn stack(slots: Vec<LuaValue>) -> LuaStack {
    LuaStack::new(LuaState(0x1000), slots, 1000)
}

fn table(entries: Vec<(LuaValue, LuaValue)>) -> LuaValue {
    let mut t = TableValue::new();
    for (k, v) in entries {
        t.set(k, v);
    }
    t.settle();
    LuaValue::Table(t)
}

fn one_entry() -> LuaValue {
    table(vec![(string("key"), LuaValue::Integer(42))])
}

fn dense_array() -> LuaValue {
    table(vec![
        (LuaValue::Integer(1), LuaValue::Integer(10)),
        (LuaValue::Integer(2), LuaValue::Integer(20)),
    ])
}

#[test]
fn type_and_stack_checks_return_errors_without_raising() {
    let lua = stack(vec![LuaValue::Integer(42), float(42.0), float(42.5)]);
    assert!(lua_checktype(&lua, 1, LUA_TNUMBER).is_ok());
    assert_eq!(lua.get::<i64>(1).unwrap(), 42);
    assert_eq!(lua.get::<i64>(2).unwrap(), 42);
    assert!(lua.get::<i64>(3).is_err());
    assert!(lua.get::<String>(1).is_err());
    assert_eq!(lua_checktype(&lua, 1, LUA_TTABLE).unwrap_err(), "table expected, got number");
    assert!(lua_checkstack(&lua, 4, None).is_ok());
    assert_eq!(lua_checkstack(&lua, i32::MAX, None).unwrap_err(), "stack overflow");
    assert_eq!(
        lua_checkstack(&lua, i32::MAX, Some("schema.verify")).unwrap_err(),
        "stack overflow (schema.verify)"
    );
}

#[test]
fn lua_type_error_converts_to_string_for_callback_results() {
    let error = LuaTypeError { expected: "integer", actual: LuaType::String };
    assert_eq!(String::from(error), "expected integer, got String");
}

#[test]
fn every_kind_has_a_label_in_type_errors() {
    let labels = [
        (LuaType::Absent, "None"),
        (LuaType::Nil, "Nil"),
        (LuaType::Boolean, "Boolean"),
        (LuaType::LightUserData, "LightUserData"),
        (LuaType::Number, "Number"),
        (LuaType::String, "String"),
        (LuaType::Table, "Table"),
        (LuaType::Function, "Function"),
        (LuaType::UserData, "UserData"),
        (LuaType::Thread, "Thread"),
        (LuaType::Integer, "Integer"),
    ];
    for (actual, label) in labels {
        let error = LuaTypeError { expected: "x", actual };
        assert_eq!(error.to_string(), format!("expected x, got {}", label));
    }
}

#[test]
fn userdata_accessors_keep_full_and_light_userdata_distinct() {
    let light_ptr: u64 = 0x42;
    let lua = stack(vec![
        LuaValue::LightUserData(light_ptr),
        LuaValue::UserData(0x77, 24),
        LuaValue::LightUserData(0),
    ]);
    assert!(lua.value(1).as_userdata().is_none());
    assert_eq!(lua.value(1).as_light_userdata(), Some(light_ptr));

    assert!(lua.value(2).as_userdata().is_some());
    assert!(lua.value(2).as_light_userdata().is_none());

    assert_eq!(lua.value(3).as_light_userdata(), Some(0));
}

#[test]
fn stack_value_append_only_borrow_reads_rooted_bytes() {
    let lua = stack(vec![string("rooted bytes")]);
    let value = lua.value(1);
    assert_eq!(value.kind(), LuaType::String);
    assert_eq!(value.as_bytes(), Some(b"rooted bytes".as_slice()));
    assert_eq!(value.as_string_lossy().as_deref(), Some("rooted bytes"));
    assert_eq!(value.as_bytes_append_only(), Some(b"rooted bytes".as_slice()));
    assert_eq!(lua.value_bytes_append_only(1), Some(b"rooted bytes".as_slice()));
}

#[test]
fn owned_string_and_bytes_keep_utf8_semantics_distinct() {
    let bytes = b"error:\xff";
    let lua = stack(vec![
        LuaValue::String(LuaString { bytes: bytes.to_vec(), integer: None }),
        LuaValue::Nil,
    ]);
    assert_eq!(lua.get::<Vec<u8>>(1).unwrap(), bytes);
    assert!(lua.get::<String>(1).is_err());
    assert_eq!(
        lua.value(1).as_string_lossy().as_deref(),
        Some(String::from_utf8_lossy(bytes).as_ref())
    );
    assert_eq!(lua.value(1).as_str(), None);
    assert_eq!(lua.get::<Option<Vec<u8>>>(2).unwrap(), None);
    assert_eq!(lua.opt::<Vec<u8>>(1), Some(bytes.to_vec()));
    assert!(lua.get::<LuaNil>(1).is_err());
    assert!(lua.get::<LuaNil>(2).is_ok());
}

#[test]
fn optional_truthy_preserves_lua_boolean_conversion() {
    let lua = stack(vec![
        LuaValue::Nil,
        LuaValue::Boolean(false),
        LuaValue::Boolean(true),
        LuaValue::Integer(0),
        string(""),
        LuaValue::Table(TableValue::new()),
    ]);
    assert_eq!(lua.opt_truthy(99), None);
    assert_eq!(lua.opt_truthy(1), None);
    assert_eq!(lua.opt_truthy(2), Some(false));
    assert_eq!(lua.opt_truthy(3), Some(true));
    assert_eq!(lua.opt_truthy(4), Some(true));
    assert_eq!(lua.opt_truthy(5), Some(true));
    assert_eq!(lua.opt_truthy(6), Some(true));

    assert_eq!(lua.get::<Option<bool>>(1).unwrap(), None);
    assert_eq!(lua.get::<Option<bool>>(2).unwrap(), Some(false));
    assert!(lua.get::<Option<bool>>(4).is_err());
}

#[test]
fn strict_array_len_handles_dense_sparse_mixed_and_non_table_values() {
    let sparse = table(vec![
        (LuaValue::Integer(1), LuaValue::Integer(10)),
        (LuaValue::Integer(3), LuaValue::Integer(30)),
    ]);
    let mixed = table(vec![
        (LuaValue::Integer(1), LuaValue::Integer(10)),
        (string("key"), LuaValue::Integer(20)),
    ]);
    let lua = stack(vec![
        dense_array(),
        sparse,
        mixed,
        LuaValue::Table(TableValue::new()),
        string("not a table"),
    ]);
    let top = lua.top();
    assert_eq!(lua.array_len(1), 2);
    assert_eq!(lua.array_len(2), 0);
    assert_eq!(lua.array_len(3), 0);
    assert_eq!(lua.array_len(4), 0);
    assert_eq!(lua.array_len(5), 0);
    assert_eq!(lua.top(), top);
    assert_eq!(lua.raw_len(2), 1);
    assert_eq!(lua.raw_len(5), 11);
}

#[test]
fn field_accessors_and_cursor_restore_every_temporary_value() {
    let headers = table(vec![(string("x-test"), LuaValue::Integer(42))]);
    let mut lua = stack(vec![
        table(vec![(string("name"), string("moon")), (string("headers"), headers)]),
        LuaValue::Integer(7),
    ]);
    let top = lua.top();
    assert_eq!(lua.opt_field::<String>(1, "name").as_deref(), Some("moon"));
    assert_eq!(lua.opt_field::<String>(1, "missing"), None);
    assert_eq!(lua.opt_field::<String>(2, "name"), None);
    assert_eq!(lua.top(), top);

    {
        let mut cursor = lua.table_field_cursor(1, "headers").expect("table-valued field");
        let (key, value) = cursor.next(&mut lua).expect("one header");
        assert_eq!(key.as_str(), Some("x-test"));
        assert_eq!(value.as_integer(), Some(42));
        cursor.close(&mut lua);
    }
    assert_eq!(lua.top(), top);
    assert!(lua.table_field_cursor(1, "name").is_none());
    assert!(lua.table_field_cursor(2, "headers").is_none());
    assert_eq!(lua.top(), top);
}

#[test]
fn cursors_over_non_tables_are_empty_and_leave_the_stack_unchanged() {
    let mut lua = stack(vec![string("not a table")]);
    let top = lua.top();
    {
        let mut cursor = lua.table_cursor(1);
        assert!(cursor.next(&mut lua).is_none());
        assert!(cursor.next(&mut lua).is_none());
        cursor.close(&mut lua);
    }
    {
        let mut cursor = lua.array_cursor_len(1, 3);
        assert!(cursor.next(&mut lua).is_none());
        assert!(cursor.next(&mut lua).is_none());
        cursor.close(&mut lua);
    }
    assert_eq!(lua.top(), top);
}

#[test]
fn cursor_lua_mut_allows_stack_neutral_ffi_work() {
    let mut lua = stack(vec![one_entry()]);
    let top = lua.top();
    {
        let mut cursor = lua.table_cursor(1);
        assert!(cursor.next(&mut lua).is_some());
        let frame_top = lua.top();
        lua.push(99);
        lua.pop(1);
        assert_eq!(lua.top(), frame_top);
        assert!(cursor.next(&mut lua).is_none());
        cursor.close(&mut lua);
    }
    assert_eq!(lua.top(), top);
}

#[test]
fn partially_consumed_cursors_restore_the_stack() {
    let mut lua = stack(vec![dense_array()]);
    let top = lua.top();
    {
        let mut cursor = lua.array_cursor(1);
        assert_eq!(cursor.next(&mut lua).and_then(|value| value.as_integer()), Some(10));
        cursor.close(&mut lua);
    }
    assert_eq!(lua.top(), top);
    {
        let mut cursor = lua.table_cursor(1);
        assert!(cursor.next(&mut lua).is_some());
        cursor.close(&mut lua);
    }
    assert_eq!(lua.top(), top);
}

#[test]
fn table_cursor_is_fused_and_restores_stack() {
    let mut lua = stack(vec![one_entry()]);
    let top = lua.top();
    {
        let mut cursor = lua.table_cursor(-1);
        let (key, value) = cursor.next(&mut lua).expect("one table entry");
        assert_eq!(key.as_str(), Some("key"));
        assert_eq!(value.as_integer(), Some(42));
        assert!(cursor.next(&mut lua).is_none());
        assert!(cursor.next(&mut lua).is_none());
        cursor.close(&mut lua);
    }
    assert_eq!(lua.top(), top);
}

#[test]
fn table_cursor_supports_non_retaining_for_loops() {
    let mut lua = stack(vec![one_entry()]);
    let top = lua.top();
    let mut seen = 0;

    let mut cursor = lua.table_cursor(1);
    while let Some(entry) = cursor.next_entry(&mut lua) {
        let key = entry.key(&lua);
        let value = entry.value(&lua);
        assert_eq!(key.as_str(), Some("key"));
        assert_eq!(value.as_integer(), Some(42));
        seen += 1;
    }
    cursor.close(&mut lua);

    assert_eq!(seen, 1);
    assert_eq!(lua.top(), top);
}

#[test]
fn array_cursor_supports_nested_tables_and_restores_stack() {
    let inner = table(vec![(LuaValue::Integer(1), LuaValue::Integer(7))]);
    let mut lua = stack(vec![table(vec![(LuaValue::Integer(1), inner)])]);
    let top = lua.top();
    {
        let mut outer = lua.array_cursor(-1);
        let inner_index = {
            let inner = outer.next(&mut lua).expect("outer array entry");
            assert_eq!(inner.kind(), LuaType::Table);
            inner.index()
        };
        {
            let mut inner = outer.nested_array(&lua, inner_index);
            assert_eq!(inner.next(&mut lua).and_then(|v| v.as_integer()), Some(7));
            assert!(inner.next(&mut lua).is_none());
            inner.close(&mut lua);
        }
        assert!(outer.next(&mut lua).is_none());
        assert!(outer.next(&mut lua).is_none());
        outer.close(&mut lua);
    }
    assert_eq!(lua.top(), top);
}

#[test]
fn walks_meet_every_entry_in_order_and_skip_holes() {
    let t = TableValue {
        array: vec![LuaValue::Integer(10), LuaValue::Nil, LuaValue::Integer(30)],
        hash: vec![(string("a"), LuaValue::Boolean(true))],
        pairs: None,
        object: false,
        address: 0,
    };
    let mut lua = stack(vec![LuaValue::Table(t)]);
    let mut cursor = lua.table_cursor(1);
    let mut seen = Vec::new();
    while let Some((k, v)) = cursor.next(&mut lua) {
        seen.push(format!("{}={}", k.to_string(), v.to_string()));
    }
    cursor.close(&mut lua);
    assert_eq!(seen, vec!["1=10", "3=30", "a=true"]);
    assert_eq!(lua.top(), 1);
}

#[test]
fn values_print_the_way_messages_show_them() {
    let lua = stack(vec![
        LuaValue::Nil,
        LuaValue::Boolean(true),
        float(1.5),
        LuaValue::Integer(-7),
        LuaValue::Integer(9007199254740993),
        LuaValue::Integer(i64::MAX),
        LuaValue::Integer(i64::MIN),
        string("text"),
        LuaValue::Table(TableValue::new()),
        LuaValue::LightUserData(0),
        LuaValue::Function(0xab12),
        LuaValue::UserData(0x10, 8),
        LuaValue::Thread(0xff),
    ]);
    let shown: Vec<String> = (1..=14).map(|i| lua.value(i).to_string()).collect();
    assert_eq!(
        shown,
        vec![
            "nil",
            "true",
            "1.5",
            "-7",
            "9007199254740992",
            "9223372036854776000",
            "-9223372036854776000",
            "text",
            "table",
            "0x0",
            "0xab12",
            "0x10",
            "0xff",
            "none",
        ]
    );
    let names: Vec<&str> = (1..=14).map(|i| lua.value(i).name()).collect();
    assert_eq!(
        names,
        vec![
            "nil",
            "boolean",
            "number",
            "number",
            "number",
            "number",
            "number",
            "string",
            "table",
            "lightuserdata",
            "function",
            "userdata",
            "thread",
            "none",
        ]
    );
}

#[test]
fn integers_are_read_from_strings_and_cut_to_width() {
    let lua = stack(vec![
        string("300"),
        LuaValue::Integer(-1),
        LuaValue::Integer(1 << 40),
        string("abc"),
        float(-2.0),
    ]);
    assert_eq!(lua.get::<u8>(1).unwrap(), 44);
    assert_eq!(lua.get::<i8>(1).unwrap(), 44);
    assert_eq!(lua.get::<u16>(2).unwrap(), u16::MAX);
    assert_eq!(lua.get::<u64>(2).unwrap(), u64::MAX);
    assert_eq!(lua.get::<usize>(2).unwrap(), usize::MAX);
    assert_eq!(lua.get::<isize>(2).unwrap(), -1);
    assert_eq!(lua.get::<i32>(3).unwrap(), 0);
    assert_eq!(lua.get::<u32>(3).unwrap(), 0);
    assert_eq!(lua.get::<i16>(5).unwrap(), -2);
    let error = lua.get::<i64>(4).unwrap_err();
    assert_eq!(error.to_string(), "expected integer, got String");
    assert_eq!(lua.opt::<i64>(4), None);
    assert_eq!(lua.opt::<i64>(9), None);
    assert_eq!(lua.get::<i64>(9).unwrap_err().to_string(), "expected integer, got None");
    for x in [-129i64, -128, 127, 128, 255, 256, i64::MIN, i64::MAX] {
        let lua = stack(vec![LuaValue::Integer(x)]);
        assert_eq!(lua.get::<i8>(1).unwrap(), x as i8);
        assert_eq!(lua.get::<u8>(1).unwrap(), x as u8);
        assert_eq!(lua.get::<i32>(1).unwrap(), x as i32);
        assert_eq!(lua.get::<u64>(1).unwrap(), x as u64);
    }
}

#[test]
fn pushing_keeps_the_value() {
    let mut lua = stack(vec![]);
    lua_push(&mut lua, -3i8);
    lua_push(&mut lua, u64::MAX);
    lua_push(&mut lua, true);
    lua_push(&mut lua, "text");
    lua_push(&mut lua, String::from("owned"));
    lua_push(&mut lua, b"\xff\x00".as_slice());
    lua_push(&mut lua, vec![1u8, 2]);
    lua_push(&mut lua, LuaNil);
    lua_pushnil(&mut lua);
    lua_pushlightuserdata(&mut lua, 5);
    assert_eq!(lua_top(&lua), 10);
    assert_eq!(lua.value(1).as_integer(), Some(-3));
    assert_eq!(lua.value(2).as_integer(), Some(-1));
    assert_eq!(lua.value(3).as_bool(), Some(true));
    assert_eq!(lua.value(4).as_str(), Some("text"));
    assert_eq!(lua.value(5).as_str(), Some("owned"));
    assert_eq!(lua.value(6).as_bytes(), Some(b"\xff\x00".as_slice()));
    assert_eq!(lua.value(7).as_bytes(), Some([1u8, 2].as_slice()));
    assert_eq!(lua.value(8).kind(), LuaType::Nil);
    assert_eq!(lua_type(&lua, 9), LuaType::Nil);
    assert_eq!(lua.value(-1).as_light_userdata(), Some(5));
    lua_pop(&mut lua, 8);
    assert_eq!(lua.top(), 2);
    lua_settop(&mut lua, 4);
    assert_eq!(lua_type(&lua, 4), LuaType::Nil);
    lua_settop(&mut lua, -2);
    assert_eq!(lua.top(), 3);
    assert_eq!(lua_null_function(&mut lua), 0);
    assert_eq!(moon::laux::LuaPush::into_value(7u16), LuaValue::Integer(7));
}

#[test]
fn indices_count_from_both_ends() {
    let lua = stack(vec![LuaValue::Nil, LuaValue::Nil, LuaValue::Nil]);
    assert_eq!(lua.abs_index(2), 2);
    assert_eq!(lua.abs_index(-1), 3);
    assert_eq!(lua.abs_index(-3), 1);
    assert_eq!(lua.abs_index(7), 7);
    assert_eq!(lua.abs_index(LUA_REGISTRYINDEX), LUA_REGISTRYINDEX);
    assert_eq!(lua_absindex(&lua, -2), 2);
    assert_eq!(lua.as_ptr(), 0x1000);
    assert_eq!(lua.state(), LuaState(0x1000));
    assert_eq!(lua.value(1).state(), LuaState(0x1000));
    assert_eq!(LuaThread::new(3).0, 3);
    assert_eq!(LuaGlobalState::new(LuaState(9)).0, LuaState(9));
}

#[test]
fn type_codes_have_the_machines_names() {
    let names: Vec<&str> = (-1..=8).map(lua_typename).collect();
    assert_eq!(
        names,
        vec![
            "no value", "nil", "boolean", "userdata", "number", "string", "table", "function",
            "userdata", "thread",
        ]
    );
}

#[test]
fn argument_places_count_up() {
    let mut args = LuaArgs::new(2);
    assert_eq!(args.iter_arg(), 2);
    assert_eq!(args.iter_arg(), 3);
}

#[test]
fn tables_are_built_on_the_stack() {
    let mut lua = stack(vec![]);
    let mut outer = LuaTable::new(&mut lua, 2, 1);
    assert_eq!(outer.index(), 1);
    outer.insert(&mut lua, "name", "moon").insert(&mut lua, "n", 3);
    outer.push(&mut lua, 10);
    let inner = LuaTable::new(&mut lua, 0, 0);
    inner.insert(&mut lua, 1, true);
    outer.push_table(&mut lua, inner);
    lua.push(30);
    outer.rawseti(&mut lua, 3);
    lua.push("k");
    lua.push(false);
    outer.insert_from_stack(&mut lua);
    assert_eq!(lua.top(), 1);
    assert_eq!(lua.raw_len(1), 3);
    assert_eq!(lua.opt_field::<String>(1, "name").as_deref(), Some("moon"));
    assert_eq!(lua.opt_field::<i64>(1, "n"), Some(3));
    assert_eq!(lua.opt_field::<bool>(1, "k"), Some(false));
    let mut cursor = lua.array_cursor_len(1, 3);
    assert_eq!(cursor.next(&mut lua).and_then(|v| v.as_integer()), Some(10));
    assert_eq!(cursor.next(&mut lua).map(|v| v.kind()), Some(LuaType::Table));
    assert_eq!(cursor.next(&mut lua).and_then(|v| v.as_integer()), Some(30));
    cursor.close(&mut lua);
}

#[test]
fn float_keys_that_are_integers_and_integers_are_one_key() {
    let mut t = TableValue::new();
    t.set(float(1.0), LuaValue::Integer(5));
    t.set(LuaValue::Integer(1), LuaValue::Integer(6));
    t.set(float(1.5), LuaValue::Integer(7));
    t.settle();
    assert_eq!(t.raw_len(), 1);
    assert_eq!(t.get(&LuaValue::Integer(1)), Some(&LuaValue::Integer(6)));
    t.set(LuaValue::Integer(1), LuaValue::Nil);
    t.settle();
    assert_eq!(t.raw_len(), 0);
}

#[test]
fn tables_are_keys_by_identity() {
    let at = |address| {
        LuaValue::Table(TableValue {
            array: vec![LuaValue::Integer(1)],
            hash: vec![],
            pairs: None,
            object: false,
            address,
        })
    };
    let mut lua = stack(vec![]);
    let t = LuaTable::new(&mut lua, 0, 0);
    for (address, n) in [(64, 1), (128, 2), (64, 3), (0, 4), (0, 5)] {
        lua.slots.push(at(address));
        lua.push(n);
        t.insert_from_stack(&mut lua);
    }
    let t = match lua.at(1) {
        Some(LuaValue::Table(t)) => t,
        _ => panic!("no table"),
    };
    assert_eq!(t.hash.len(), 4);
    assert_eq!(t.get(&at(64)), Some(&LuaValue::Integer(3)));
    assert_eq!(t.get(&at(128)), Some(&LuaValue::Integer(2)));
    assert_eq!(t.get(&at(192)), None);
}

#[test]
fn raw_lengths_are_the_machines() {
    let lua = stack(vec![
        dense_array(),
        string("abc"),
        LuaValue::UserData(0x40, 24),
        LuaValue::LightUserData(0x40),
    ]);
    for (index, len) in [(1, 2), (2, 3), (3, 24), (4, 0), (5, 0)] {
        assert_eq!(lua.raw_len(index), len);
    }
}

#[test]
fn array_walks_meet_sequences_alone() {
    let steps = |v| {
        let mut lua = stack(vec![v]);
        let mut cursor = lua.array_cursor(1);
        let mut met = vec![];
        for _ in 0..4 {
            met.push(cursor.next(&mut lua).and_then(|v| v.as_integer()));
        }
        cursor.close(&mut lua);
        assert_eq!(lua.top(), 1);
        met
    };
    let n = LuaValue::Integer;
    assert_eq!(steps(dense_array()), vec![Some(10), Some(20), None, None]);
    assert_eq!(steps(table(vec![(n(1), n(10)), (n(3), n(30))])), vec![None; 4]);
    assert_eq!(steps(table(vec![(n(1), n(10)), (string("x"), n(3))])), vec![None; 4]);
    assert_eq!(steps(string("x")), vec![None; 4]);
}

#[test]
fn metafields_of_tables_are_seen() {
    let t = TableValue {
        array: vec![],
        hash: vec![],
        pairs: Some(MetaPairs { entries: vec![], failure: None }),
        object: true,
        address: 0,
    };
    let lua = stack(vec![LuaValue::Table(t), one_entry(), LuaValue::Nil]);
    assert!(lua.has_metafield(1, Metafield::Pairs));
    assert!(lua.has_metafield(1, Metafield::Object));
    assert!(!lua.has_metafield(2, Metafield::Pairs));
    assert!(!lua.has_metafield(2, Metafield::Object));
    assert!(!lua.has_metafield(3, Metafield::Object));
    assert!(<bool as FromLua>::from_lua(&lua, 3).is_err());
}

#[test]
fn integers_print_like_the_floats_next_to_them() {
    let mut samples: Vec<i64> = vec![0, 1, -1, i64::MAX, i64::MIN, i64::MIN + 1];
    for k in 0..63 {
        for d in -3..=3 {
            samples.push((1i64 << k).wrapping_add(d));
            samples.push((1i64 << k).wrapping_add(d << (k / 2)));
        }
    }
    let mut p = 1i64;
    for _ in 0..18 {
        p *= 10;
        for d in [-513, -512, -65, -1, 0, 1, 64, 512, 513] {
            samples.push(p + d);
            samples.push((p + d).wrapping_mul(9));
        }
    }
    let mut x = 0x9e37_79b9_7f4a_7c15u64;
    for i in 0..20000u64 {
        x = x.wrapping_mul(6364136223846793005).wrapping_add(1442695040888963407);
        samples.push((x >> (i % 24)) as i64);
    }
    for n in samples {
        let lua = stack(vec![LuaValue::Integer(n)]);
        assert_eq!(lua.value(1).to_string(), format!("{}", n as f64), "{}", n);
    }
}
