use moon::laux::{LuaStack, LuaState};
use moon::pack::{pack_value, write_bytes, write_integer};
use moon::seri::{
    pack, pack_string, pack_values, peek_one, peek_request, unpack, unpack_onto, unpack_source,
    Source,
};
use moon::unpack::{
    decode_bytes, get_integer, unpack_one, DecodeError, ReadBlock, LINE_BYTE, LINE_CONSUME,
    LINE_I32, LINE_KIND,
};
use moon::value::{LuaNumber, LuaString, LuaValue, MetaPairs, PairsFailure, TableValue};

fn string(s: &str) -> LuaValue {
    LuaValue::String(LuaString { bytes: s.as_bytes().to_vec(), integer: None })
}

fn float(x: f64) -> LuaValue {
    LuaValue::Number(LuaNumber { bits: x.to_bits(), text: String::new() })
}

fn stack(slots: Vec<LuaValue>) -> LuaStack {
    LuaStack::new(LuaState(1), slots, 1000)
}

fn packed(v: &LuaValue) -> Result<Vec<u8>, String> {
    let mut buf = Vec::new();
    pack_value(v, &mut buf, 0, 900).map(|_| buf)
}

fn plain(array: Vec<LuaValue>, hash: Vec<(LuaValue, LuaValue)>) -> TableValue {
    TableValue { array, hash, pairs: None, object: false, address: 0 }
}

fn nested(depth: usize) -> LuaValue {
    let mut v = LuaValue::Boolean(true);
    for _ in 0..depth {
        v = LuaValue::Table(plain(vec![v], vec![]));
    }
    v
}

#[test]
fn mixed_table_round_trip_preserves_all_array_and_hash_entries() {
    const ARRAY_SIZE: usize = 32;
    const HASH_SIZE: usize = 8;

    let mut t = TableValue::new();
    for i in 1..=ARRAY_SIZE {
        t.set(LuaValue::Integer(i as i64), LuaValue::Integer((i as i64) * 10));
    }
    for i in 1..=HASH_SIZE {
        t.set(string(&format!("field{}", i)), LuaValue::Integer(1_000 + i as i64));
    }
    t.settle();
    let mut encoded = Vec::new();
    pack_value(&LuaValue::Table(t), &mut encoded, 0, 900).expect("pack mixed table");

    let mut lua = stack(vec![LuaValue::Nil]);
    let count = match unpack_onto(&mut lua, &encoded) {
        Ok(count) => count,
        Err(error) => panic!("unpack mixed table: {}", error.message()),
    };
    assert_eq!(count, 1);
    assert_eq!(lua.top(), 1);
    assert_eq!(
        lua.raw_len(1),
        ARRAY_SIZE,
        "the encoded table header and array payload must agree"
    );

    let t = match lua.at(1) {
        Some(LuaValue::Table(t)) => t,
        _ => panic!("no table"),
    };
    for i in 1..=ARRAY_SIZE {
        assert_eq!(
            t.get(&LuaValue::Integer(i as i64)),
            Some(&LuaValue::Integer((i as i64) * 10)),
            "array entry {} was not preserved",
            i
        );
    }
    for i in 1..=HASH_SIZE {
        let key = format!("field{}", i);
        assert_eq!(
            t.get(&string(&key)),
            Some(&LuaValue::Integer(1_000 + i as i64)),
            "hash entry {} was not preserved",
            key
        );
    }
    assert_eq!(lua.top(), 1);
}

#[test]
fn integers_take_the_shortest_form() {
    let cases: Vec<(i64, Vec<u8>)> = vec![
        (0, vec![2]),
        (1, vec![10, 1]),
        (255, vec![10, 255]),
        (256, vec![18, 0, 1]),
        (65535, vec![18, 255, 255]),
        (65536, vec![34, 0, 0, 1, 0]),
        (-1, vec![34, 255, 255, 255, 255]),
        (i32::MAX as i64, vec![34, 255, 255, 255, 127]),
        (i32::MIN as i64, vec![34, 0, 0, 0, 128]),
        (i32::MAX as i64 + 1, vec![50, 0, 0, 0, 128, 0, 0, 0, 0]),
        (i64::MIN, vec![50, 0, 0, 0, 0, 0, 0, 0, 128]),
    ];
    for (n, bytes) in cases {
        let mut buf = Vec::new();
        write_integer(&mut buf, n);
        assert_eq!(buf, bytes);
        assert_eq!(decode_bytes(&buf, 100), Ok(vec![LuaValue::Integer(n)]));
    }
}

#[test]
fn strings_of_all_lengths_come_back() {
    for n in [0usize, 1, 31, 32, 255, 65535, 65536, 70000] {
        let text = vec![b'x'; n];
        let mut buf = Vec::new();
        write_bytes(&mut buf, &text);
        let head = if n < 32 {
            1
        } else if n < 65536 {
            3
        } else {
            5
        };
        assert_eq!(buf.len(), head + n);
        assert_eq!(decode_bytes(&buf, 100), Ok(vec![LuaValue::from_bytes(text)]));
    }
}

#[test]
fn scalars_have_fixed_bytes() {
    assert_eq!(packed(&LuaValue::Nil), Ok(vec![0]));
    assert_eq!(packed(&LuaValue::Boolean(true)), Ok(vec![9]));
    assert_eq!(packed(&LuaValue::Boolean(false)), Ok(vec![1]));
    assert_eq!(packed(&string("ab")), Ok(vec![20, b'a', b'b']));
    assert_eq!(packed(&LuaValue::LightUserData(0x0102)), Ok(vec![3, 2, 1, 0, 0, 0, 0, 0, 0]));
    let mut real = vec![66];
    real.extend_from_slice(&1.5f64.to_le_bytes());
    assert_eq!(packed(&float(1.5)), Ok(real));
    assert_eq!(packed(&LuaValue::Table(TableValue::new())), Ok(vec![6, 0]));
    let t = plain(vec![LuaValue::Integer(7)], vec![(string("k"), LuaValue::Boolean(true))]);
    assert_eq!(packed(&LuaValue::Table(t)), Ok(vec![14, 10, 7, 12, b'k', 9, 0]));
}

#[test]
fn what_cannot_be_packed_is_reported() {
    assert_eq!(
        packed(&float(f64::NAN)).unwrap_err(),
        "serialize can't pack 'nan' number value"
    );
    assert_eq!(
        packed(&LuaValue::Function(1)).unwrap_err(),
        "Unsupport type `function` to serialize"
    );
    assert_eq!(
        packed(&LuaValue::UserData(1, 8)).unwrap_err(),
        "Unsupport type `userdata` to serialize"
    );
    assert_eq!(packed(&nested(34)).unwrap_err(), "serialize can't pack too depth table");
    assert!(packed(&nested(32)).is_ok());
    let mut buf = Vec::new();
    assert_eq!(
        pack_value(&nested(1), &mut buf, 0, 19).unwrap_err(),
        "stack overflow (serialize)"
    );
}

#[test]
fn pairs_metamethods_replace_the_entries() {
    let t = TableValue {
        array: vec![LuaValue::Integer(1)],
        hash: vec![],
        pairs: Some(MetaPairs {
            entries: vec![(string("a"), LuaValue::Integer(0))],
            failure: None,
        }),
        object: false,
        address: 0,
    };
    assert_eq!(packed(&LuaValue::Table(t)), Ok(vec![6, 12, b'a', 2, 0]));
    let failing = |failure| {
        let pairs = Some(MetaPairs { entries: vec![], failure: Some(failure) });
        packed(&LuaValue::Table(TableValue {
            array: vec![],
            hash: vec![],
            pairs,
            object: false,
            address: 0,
        }))
    };
    assert_eq!(
        failing(PairsFailure::Call(Some(b"boom".to_vec()))).unwrap_err(),
        "serialize __pairs error: boom"
    );
    assert_eq!(
        failing(PairsFailure::Iterator(Some(b"\xffx".to_vec()))).unwrap_err(),
        "serialize __pairs iterator error: \u{fffd}x"
    );
    assert_eq!(
        failing(PairsFailure::Call(None)).unwrap_err(),
        "serialize __pairs error: unknown error"
    );
}

#[test]
fn malformed_streams_are_refused_where_reading_stops() {
    let refusal = |bytes: &[u8], limit| decode_bytes(bytes, limit).unwrap_err().0;
    assert_eq!(
        refusal(&[10], 100),
        DecodeError::InvalidStream { remaining: 0, line: LINE_BYTE }
    );
    assert_eq!(
        refusal(&[20, b'a'], 100),
        DecodeError::InvalidStream { remaining: 1, line: LINE_CONSUME }
    );
    assert_eq!(
        refusal(&[7, 1, 2], 100),
        DecodeError::InvalidStream { remaining: 2, line: LINE_KIND }
    );
    assert_eq!(
        DecodeError::InvalidStream { remaining: 2, line: 588 }.message(),
        "Invalid serialize stream 2 (line:588)"
    );
    assert_eq!(DecodeError::TooDeep.message(), "serialize unpack: too deep");
    assert_eq!(DecodeError::StackOverflow.message(), "stack overflow");
    let deep = vec![14u8; 40];
    assert_eq!(refusal(&deep, 1000), DecodeError::TooDeep);
    assert_eq!(refusal(&[6, 0, 6, 0], 20), DecodeError::StackOverflow);
    assert_eq!(refusal(&[0; 40], 24), DecodeError::StackOverflow);
    let mut nan_key = vec![6, 66];
    nan_key.extend_from_slice(&f64::NAN.to_le_bytes());
    nan_key.extend_from_slice(&[2, 0]);
    assert_eq!(refusal(&nan_key, 100), DecodeError::NanKey);
    assert_eq!(DecodeError::NanKey.message(), "table index is NaN");
}

#[test]
fn a_failed_decode_leaves_what_it_had_come_to() {
    let left = |bytes: &[u8]| decode_bytes(bytes, 100).unwrap_err().1;
    // One value, then one that cannot be read.
    assert_eq!(left(&[10, 5, 7]), vec![LuaValue::Integer(5)]);
    // A list of two whose second element is missing.
    assert_eq!(
        left(&[22, 10, 5]),
        vec![LuaValue::Table(plain(vec![LuaValue::Integer(5)], vec![]))]
    );
    // An element that is a list with nothing in it yet.
    assert_eq!(
        left(&[22, 10, 5, 14]),
        vec![
            LuaValue::Table(plain(vec![LuaValue::Integer(5)], vec![])),
            LuaValue::Table(plain(vec![], vec![])),
        ]
    );
    // A key without its value, above the entries before it.
    assert_eq!(
        left(&[6, 12, b'k', 10, 1, 12, b'q']),
        vec![
            LuaValue::Table(plain(vec![], vec![(string("k"), LuaValue::Integer(1))])),
            string("q"),
        ]
    );
    // A key that no table can have, and its value.
    let mut nan_key = vec![6, 66];
    nan_key.extend_from_slice(&f64::NAN.to_le_bytes());
    nan_key.extend_from_slice(&[10, 2]);
    assert_eq!(
        left(&nan_key),
        vec![
            LuaValue::Table(plain(vec![], vec![])),
            LuaValue::from_bits(f64::NAN.to_bits()),
            LuaValue::Integer(2),
        ]
    );
    // Too little room for a table leaves nothing of it.
    assert_eq!(
        decode_bytes(&[10, 5, 6, 0], 20).unwrap_err(),
        (DecodeError::StackOverflow, vec![LuaValue::Integer(5)])
    );

    let mut lua = stack(vec![LuaValue::Nil, LuaValue::Nil]);
    assert!(unpack_onto(&mut lua, &[10, 5, 7]).is_err());
    assert_eq!(lua.slots, vec![LuaValue::Integer(5)]);
    let mut lua = stack(vec![LuaValue::from_bytes(vec![10, 5, 7])]);
    assert!(unpack(&mut lua).is_err());
    assert_eq!(lua.slots, vec![LuaValue::Integer(5)]);
    let mut lua = stack(vec![LuaValue::Boolean(true)]);
    assert!(peek_one(&mut lua, &[14, 7], 1000).is_err());
    assert_eq!(
        lua.slots,
        vec![LuaValue::Boolean(true), LuaValue::Table(plain(vec![], vec![]))]
    );
}

#[test]
fn a_failed_read_keeps_its_place() {
    let mut br = ReadBlock::new(&[1, 2, 3]);
    assert_eq!(br.read_byte(), Some(1));
    assert_eq!(get_integer(&mut br, 4), None);
    assert_eq!(br.offset(), 1);
    assert_eq!(br.error(), DecodeError::InvalidStream { remaining: 2, line: LINE_I32 });
    assert_eq!(get_integer(&mut br, 2), Some(0x0302));
    assert_eq!(br.read_byte(), None);
    assert_eq!(br.offset(), 3);
    // A value that breaks off moves on to where it does.
    let mut br = ReadBlock::new(&[22, 10, 5, 28, 0]);
    assert!(unpack_one(&mut br, 0, 100).is_err());
    assert_eq!(br.offset(), 4);
}

#[test]
fn integers_of_every_size_are_read_back() {
    for v in [0, 1, 255, 256, 65535, 65536, -1, i32::MIN as i64, i32::MAX as i64, i64::MIN] {
        let bytes = packed(&LuaValue::Integer(v)).unwrap();
        let mut br = ReadBlock::new(&bytes);
        let head = br.read_byte().unwrap();
        assert_eq!(head % 8, 2);
        assert_eq!(get_integer(&mut br, head / 8), Some(v));
        assert_eq!(br.len(), 0);
    }
}

#[test]
fn a_failed_pack_leaves_what_was_written() {
    let mut buf = vec![9];
    assert!(pack_value(&LuaValue::Function(1), &mut buf, 0, 100).is_err());
    assert!(pack_value(&float(f64::NAN), &mut buf, 0, 100).is_err());
    assert_eq!(buf, vec![9]);
    let t = LuaValue::Table(plain(vec![LuaValue::Integer(5), LuaValue::Thread(1)], vec![]));
    assert!(pack_value(&t, &mut buf, 0, 100).is_err());
    assert_eq!(buf, vec![9, 22, 10, 5]);
    let mut buf = vec![];
    let values = vec![LuaValue::Integer(5), LuaValue::Table(plain(
        vec![],
        vec![(string("k"), LuaValue::Thread(1))],
    ))];
    assert!(pack_values(&values, &mut buf, 100).is_err());
    assert_eq!(buf, vec![10, 5, 6, 12, b'k']);
}

#[test]
fn stacks_round_trip() {
    let values = || {
        vec![
            LuaValue::Integer(-5),
            string("hello"),
            float(0.25),
            LuaValue::Nil,
            nested(3),
            LuaValue::LightUserData(77),
        ]
    };
    let lua = stack(values());
    let bytes = pack(&lua).unwrap().unwrap();
    assert_eq!(decode_bytes(&bytes, 1000).unwrap(), values());
    assert_eq!(pack(&stack(vec![])), Ok(None));

    let mut lua = stack(values());
    assert_eq!(pack_string(&mut lua), Ok(1));
    assert_eq!(lua.value(-1).as_bytes(), Some(bytes.as_slice()));
    let mut other = stack(vec![LuaValue::from_bytes(bytes)]);
    assert_eq!(unpack(&mut other), Ok(Ok(6)));
    assert_eq!(other.slots, values());
    assert_eq!(pack_string(&mut stack(vec![])), Ok(0));
}

#[test]
fn unpack_arguments_are_checked_in_order() {
    let source = |slots| unpack_source(&stack(slots));
    assert!(matches!(source(vec![]), Ok(Source::Nothing)));
    assert!(matches!(source(vec![LuaValue::Nil]), Ok(Source::Nothing)));
    assert!(matches!(source(vec![string("")]), Ok(Source::Nothing)));
    assert_eq!(
        source(vec![LuaValue::LightUserData(1)]).unwrap_err(),
        "deserialize length must be an integer"
    );
    assert_eq!(
        source(vec![LuaValue::LightUserData(1), LuaValue::Integer(-1)]).unwrap_err(),
        "deserialize negative length"
    );
    assert!(matches!(
        source(vec![LuaValue::LightUserData(0), LuaValue::Integer(0)]),
        Ok(Source::Nothing)
    ));
    assert_eq!(
        source(vec![LuaValue::Boolean(true), LuaValue::Integer(3)]).unwrap_err(),
        "deserialize null pointer"
    );
    assert!(matches!(
        source(vec![LuaValue::LightUserData(8), LuaValue::Integer(3)]),
        Ok(Source::Memory { address: 8, len: 3 })
    ));
    let mut lua = stack(vec![LuaValue::LightUserData(8), LuaValue::Integer(3)]);
    assert_eq!(unpack(&mut lua), Ok(Err((8, 3))));
    let mut lua = stack(vec![LuaValue::from_bytes(vec![7])]);
    assert_eq!(unpack(&mut lua).unwrap_err(), "Invalid serialize stream 0 (line:588)");
}

#[test]
fn peeking_reads_one_value_and_says_what_is_left() {
    assert_eq!(peek_request(&stack(vec![])), Ok(None));
    assert_eq!(
        peek_request(&stack(vec![string("x")])).unwrap_err(),
        "peek_one need lightuserdata"
    );
    assert_eq!(
        peek_request(&stack(vec![LuaValue::LightUserData(0)])).unwrap_err(),
        "null buffer pointer"
    );
    assert_eq!(peek_request(&stack(vec![LuaValue::LightUserData(9)])), Ok(Some((9, false))));
    assert_eq!(
        peek_request(&stack(vec![LuaValue::LightUserData(9), LuaValue::Integer(0)])),
        Ok(Some((9, true)))
    );
    let mut lua = stack(vec![]);
    assert_eq!(peek_one(&mut lua, &[10, 5, 9], 1000), Ok((3, 2)));
    assert_eq!(
        lua.slots,
        vec![LuaValue::Integer(5), LuaValue::LightUserData(1002), LuaValue::Integer(1)]
    );
    let mut lua = stack(vec![]);
    assert_eq!(peek_one(&mut lua, &[], 1000), Ok((0, 0)));
    assert_eq!(
        peek_one(&mut lua, &[10], 1000).unwrap_err(),
        "Invalid serialize stream 0 (line:432)"
    );
}
