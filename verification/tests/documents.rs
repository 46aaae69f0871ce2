use moon::bson::{
    bson_to_lua, document_to_table, lua_to_bson, lua_to_doc, table_to_bson, table_to_doc, tt, Bson,
    Document, Unconverted,
};
use moon::laux::{LuaStack, LuaState};
use moon::value::{LuaNumber, LuaString, LuaValue, TableValue};

fn string(s: &str) -> LuaValue {
    LuaValue::String(LuaString { bytes: s.as_bytes().to_vec(), integer: None })
}

fn raw(bytes: &[u8]) -> LuaValue {
    LuaValue::String(LuaString { bytes: bytes.to_vec(), integer: None })
}

fn table(entries: Vec<(LuaValue, LuaValue)>) -> LuaValue {
    let mut t = TableValue::new();
    for (k, v) in entries {
        t.set(k, v);
    }
    t.settle();
    LuaValue::Table(t)
}

fn record(fields: Vec<(&str, LuaValue)>) -> LuaValue {
    table(fields.into_iter().map(|(k, v)| (string(k), v)).collect())
}

fn list(items: Vec<LuaValue>) -> LuaValue {
    table(
        items.into_iter().enumerate().map(|(i, v)| (LuaValue::Integer(i as i64 + 1), v)).collect(),
    )
}

fn stack(slots: Vec<LuaValue>) -> LuaStack {
    LuaStack::new(LuaState(1), slots, 1000)
}

fn doc(fields: Vec<(&str, Bson)>) -> Document {
    let mut d = Document::new();
    for (k, v) in fields {
        d.insert(k.to_string(), v);
    }
    d
}

const ID: [u8; 12] = [0x50, 0x7f, 0x1f, 0x77, 0xbc, 0xf8, 0x6c, 0xd7, 0x99, 0x43, 0x90, 0x11];

#[test]
fn nested_bson_conversion_restores_the_lua_stack() {
    let lua = stack(vec![record(vec![
        ("_id", string("507f1f77bcf86cd799439011")),
        ("name", string("moon")),
        (
            "nested",
            record(vec![
                ("enabled", LuaValue::Boolean(true)),
                (
                    "values",
                    list(vec![LuaValue::Integer(1), LuaValue::Integer(2), LuaValue::Integer(3)]),
                ),
                ("empty", record(vec![])),
            ]),
        ),
    ])]);
    let top = lua.top();
    let document = table_to_doc(&lua, 1).expect("nested document conversion");

    assert_eq!(lua.top(), top);
    assert_eq!(
        document,
        doc(vec![
            ("_id", Bson::ObjectId(ID)),
            ("name", Bson::String("moon".to_string())),
            (
                "nested",
                Bson::Document(doc(vec![
                    ("enabled", Bson::Boolean(true)),
                    ("values", Bson::Array(vec![Bson::Int64(1), Bson::Int64(2), Bson::Int64(3)])),
                    ("empty", Bson::Document(doc(vec![]))),
                ])),
            ),
        ])
    );
}

#[test]
fn nested_bson_error_restores_the_lua_stack() {
    let lua =
        stack(vec![record(vec![("nested", record(vec![("bad", LuaValue::LightUserData(0))]))])]);
    let top = lua.top();
    let error = table_to_doc(&lua, 1).expect_err("unsupported nested Lua value");

    assert_eq!(error, "Invalid type: lightuserdata");
    assert_eq!(lua.top(), top);
}

#[test]
fn keys_become_text() {
    let half = LuaValue::Number(LuaNumber { bits: 1.5f64.to_bits(), text: "1.5".to_string() });
    let t = table(vec![
        (LuaValue::Integer(1), LuaValue::Boolean(true)),
        (LuaValue::Integer(-7), LuaValue::Boolean(false)),
        (half, LuaValue::Integer(3)),
        (string("k"), LuaValue::Integer(4)),
    ]);
    let d = lua_to_doc(&t).unwrap();
    assert_eq!(
        d,
        doc(vec![
            ("1", Bson::Boolean(true)),
            ("-7", Bson::Boolean(false)),
            ("1.5", Bson::Int64(3)),
            ("k", Bson::Int64(4)),
        ])
    );
    let both = table(vec![
        (LuaValue::Integer(1), LuaValue::Integer(10)),
        (string("1"), LuaValue::Integer(20)),
    ]);
    assert_eq!(lua_to_doc(&both).unwrap(), doc(vec![("1", Bson::Int64(20))]));
    assert_eq!(
        lua_to_doc(&table(vec![(raw(b"\xff"), LuaValue::Nil), (raw(b"\xfe"), string("x"))])),
        Err("Invalid document key: not valid UTF-8".to_string())
    );
    assert_eq!(
        lua_to_doc(&table(vec![(LuaValue::Boolean(true), string("x"))])),
        Err("Invalid key type: boolean".to_string())
    );
    assert_eq!(lua_to_doc(&LuaValue::Integer(1)), Err("Invalid type: number".to_string()));
    assert_eq!(table_to_doc(&stack(vec![string("x")]), 1), Ok(Document::new()));
}

#[test]
fn values_that_are_no_text_or_id_are_reported() {
    assert_eq!(
        lua_to_bson(&raw(b"a\xff"), false).unwrap_err(),
        format!("Invalid UTF-8 in string: {}", std::str::from_utf8(b"a\xff").unwrap_err())
    );
    let bad_id = |s: &str| lua_to_bson(&string(s), true).unwrap_err();
    let wrong_length = "provided hex string representation must be exactly 12 bytes, instead got: ";
    assert_eq!(bad_id("xyz"), format!("{}\"xyz\", length 3", wrong_length));
    assert_eq!(bad_id(""), format!("{}\"\", length 0", wrong_length));
    assert_eq!(
        bad_id("50zg"),
        "invalid character 'z' was found at index 2 in the provided hex string: \"50zg\""
    );
    assert_eq!(
        bad_id("a\u{e9}0"),
        "invalid character '\u{c3}' was found at index 1 in the provided hex string: \"a\u{e9}0\""
    );
    assert_eq!(
        lua_to_bson(&string("507F1F77BCF86CD799439011"), true),
        Ok(Bson::ObjectId(ID))
    );
    assert_eq!(bad_id("507f"), format!("{}\"507f\", length 4", wrong_length));
    assert_eq!(lua_to_bson(&LuaValue::Nil, false), Ok(Bson::Null));
    assert_eq!(lua_to_bson(&LuaValue::Function(1), false), Err("Invalid type: function".into()));
}

#[test]
fn sequences_are_arrays_and_mixed_tables_documents() {
    let get = |v| match v {
        LuaValue::Table(t) => table_to_bson(&t).unwrap(),
        _ => unreachable!(),
    };
    assert_eq!(get(list(vec![string("a")])), Bson::Array(vec![Bson::String("a".to_string())]));
    assert_eq!(
        get(table(vec![
            (LuaValue::Integer(1), LuaValue::Integer(5)),
            (string("x"), LuaValue::Integer(6)),
        ])),
        Bson::Document(doc(vec![("1", Bson::Int64(5)), ("x", Bson::Int64(6))]))
    );
}

#[test]
fn documents_come_back_as_tables() {
    let v = record(vec![
        ("a", LuaValue::Integer(1)),
        ("b", list(vec![string("x"), LuaValue::Boolean(false)])),
        ("c", record(vec![("d", LuaValue::from_bits(0.5f64.to_bits()))])),
        ("e", record(vec![])),
    ]);
    let lua = stack(vec![v]);
    let back = tt(&lua).unwrap();
    assert_eq!(Some(&back), lua.at(1));
    let t = document_to_table(&doc(vec![("n", Bson::Null), ("m", Bson::Int32(3))])).unwrap();
    assert_eq!(t.get(&string("n")), None);
    assert_eq!(t.get(&string("m")), Some(&LuaValue::Integer(3)));
}

#[test]
fn special_values_become_their_text() {
    let lua = |b: &Bson| bson_to_lua(b).unwrap();
    assert_eq!(lua(&Bson::ObjectId(ID)), string("507f1f77bcf86cd799439011"));
    assert_eq!(lua(&Bson::Timestamp { time: 7, increment: 9 }), string("Timestamp(7, 9)"));
    assert_eq!(
        lua(&Bson::DateTime(0)),
        string(&mongodb::bson::DateTime::from_millis(0).to_string())
    );
    assert_ne!(lua(&Bson::DateTime(0)), string("0"));
    let one: mongodb::bson::Decimal128 = "1.5".parse().unwrap();
    assert_eq!(lua(&Bson::Decimal128(one.bytes())), string("1.5"));
    assert_eq!(lua(&Bson::Binary(vec![0, 255])), raw(&[0, 255]));
    assert_eq!(lua(&Bson::Double(2.5f64.to_bits())), LuaValue::from_bits(2.5f64.to_bits()));
    assert_eq!(
        bson_to_lua(&Bson::Array(vec![Bson::Other("MinKey".to_string())])),
        Err(Unconverted {
            message: "Unsupported BSON type: MinKey".to_string(),
            left: vec![LuaValue::Table(TableValue::new())],
        })
    );
    let deep = Bson::Array(vec![
        Bson::Int64(1),
        Bson::Document(doc(vec![("k", Bson::Int64(2)), ("o", Bson::Other("X".to_string()))])),
    ]);
    assert_eq!(
        bson_to_lua(&deep).unwrap_err().left,
        vec![
            list(vec![LuaValue::Integer(1)]),
            record(vec![("k", LuaValue::Integer(2))]),
            string("o"),
        ]
    );
    let holes = Bson::Array(vec![Bson::Null, Bson::Int64(2), Bson::Null]);
    match lua(&holes) {
        LuaValue::Table(t) => {
            assert_eq!(t.raw_len(), 2);
            assert_eq!(t.get(&LuaValue::Integer(2)), Some(&LuaValue::Integer(2)));
        }
        _ => panic!("no table"),
    }
}

#[test]
fn inserting_a_key_again_keeps_its_place() {
    let mut d = doc(vec![("a", Bson::Int64(1)), ("b", Bson::Int64(2))]);
    d.insert("a".to_string(), Bson::Int64(3));
    assert_eq!(d.len(), 2);
    assert_eq!(d.entries[0], ("a".to_string(), Bson::Int64(3)));
    assert_eq!(d.get("b"), Some(&Bson::Int64(2)));
    assert_eq!(d.get("c"), None);
}
