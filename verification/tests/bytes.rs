use moon::buffer::{concat_one, concat_string, get_buffer_ptr, Buffer};
use moon::buffer_read::{new_capacity, read, unpack, write_front};
use moon::laux::{LuaStack, LuaState};
use moon::text::to_hex_string;
use moon::utils::{base64_decode, base64_encode, hash, select_hasher, use_hasher, Hasher};
use moon::value::{LuaNumber, LuaString, LuaValue, TableValue};

fn string(s: &str) -> LuaValue {
    LuaValue::String(LuaString { bytes: s.as_bytes().to_vec(), integer: None })
}

fn list(items: Vec<LuaValue>) -> LuaValue {
    LuaValue::Table(TableValue {
        array: items,
        hash: vec![],
        pairs: None,
        object: false,
        address: 0,
    })
}

fn stack(slots: Vec<LuaValue>) -> LuaStack {
    LuaStack::new(LuaState(1), slots, 1000)
}

fn buffer(bytes: &[u8]) -> Buffer {
    Buffer { bytes: bytes.to_vec(), front: 4 }
}

#[test]
fn values_are_concatenated() {
    let float = LuaValue::Number(LuaNumber { bits: 1.5f64.to_bits(), text: "1.5".to_string() });
    let mut lua = stack(vec![
        string("a"),
        LuaValue::Nil,
        LuaValue::Integer(-12),
        float,
        LuaValue::Boolean(true),
        list(vec![string("x"), list(vec![LuaValue::Boolean(false)])]),
        LuaValue::Table(TableValue {
            array: vec![],
            hash: vec![(string("k"), string("ignored"))],
            pairs: None,
            object: false,
            address: 0,
        }),
    ]);
    let buf = moon::buffer::concat(&lua, 16).unwrap().unwrap();
    assert_eq!(buf.bytes, b"a-121.5truexfalse");
    assert_eq!(buf.front, 16);
    assert_eq!(concat_string(&mut lua), Ok(1));
    assert_eq!(lua.value(-1).as_bytes(), Some(b"a-121.5truexfalse".as_slice()));
    assert_eq!(moon::buffer::concat(&stack(vec![]), 0), Ok(None));
    assert_eq!(concat_string(&mut stack(vec![])), Ok(0));
}

#[test]
fn concatenation_is_bounded() {
    assert_eq!(
        moon::buffer::concat(&stack(vec![LuaValue::Function(1)]), 0).unwrap_err(),
        "buffer.concat unsupport type :function"
    );
    let nested = |n: usize| {
        let mut v = string("x");
        for _ in 0..n {
            v = list(vec![v]);
        }
        v
    };
    let mut buf = Buffer::new(0);
    assert_eq!(concat_one(&mut buf, &nested(32), 0), Ok(()));
    assert_eq!(buf.bytes, b"x");
    assert_eq!(
        concat_one(&mut buf, &nested(33), 0).unwrap_err(),
        "buffer.concat too depth table"
    );
    assert_eq!(
        concat_one(&mut buf, &string("x"), 33).unwrap_err(),
        "buffer.concat too depth table"
    );
    assert_eq!(buf.bytes, b"x");
    let mixed = list(vec![string("a"), list(vec![string("b"), LuaValue::Thread(1)]), string("c")]);
    assert_eq!(
        concat_one(&mut buf, &mixed, 0).unwrap_err(),
        "buffer.concat unsupport type :thread"
    );
    assert_eq!(buf.bytes, b"xab");
}

#[test]
fn formats_read_numbers_in_both_orders() {
    let buf = buffer(&[0x01, 0xff, 0x80, 0x00, 0x00, 0x02, 9]);
    let run = |format: &str, pos: i64| {
        let lua = stack(vec![LuaValue::LightUserData(1), string(format), LuaValue::Integer(pos)]);
        unpack(&buf, 100, &lua)
    };
    assert_eq!(
        run("hH", 0).unwrap(),
        vec![LuaValue::Integer(0xff01 - 0x10000), LuaValue::Integer(0x0080)]
    );
    assert_eq!(
        run(">hH", 0).unwrap(),
        vec![LuaValue::Integer(0x01ff), LuaValue::Integer(0x8000)]
    );
    assert_eq!(run(">i", 2).unwrap(), vec![LuaValue::Integer(i32::MIN as i64 + 2)]);
    assert_eq!(run(">I", 2).unwrap(), vec![LuaValue::Integer(0x8000_0002)]);
    assert_eq!(run("<I", 2).unwrap(), vec![LuaValue::Integer(0x0200_0080)]);
    assert_eq!(
        run("C", 3).unwrap(),
        vec![LuaValue::LightUserData(103), LuaValue::Integer(4)]
    );
    assert_eq!(run("Z", 3).unwrap(), vec![LuaValue::from_bytes(buf.bytes.clone())]);
    assert_eq!(run("", 0).unwrap(), vec![]);
    assert_eq!(run("h", 6).unwrap_err(), "bad argument #2 (data out of range)");
    assert_eq!(run("i", 4).unwrap_err(), "bad argument #2 (data out of range)");
    assert_eq!(run("Z", 8).unwrap_err(), "bad argument #3 (out of range)");
    assert_eq!(run("Z", -1).unwrap_err(), "bad argument #3 (out of range)");
    assert_eq!(run("q", 0).unwrap_err(), "invalid format option 'q'");
}

#[test]
fn plain_reads_cut_out_bytes() {
    let buf = buffer(b"hello");
    let run = |rest: Vec<LuaValue>| {
        let mut slots = vec![LuaValue::LightUserData(1)];
        slots.extend(rest);
        unpack(&buf, 0, &stack(slots))
    };
    assert_eq!(run(vec![]).unwrap(), vec![string("hello")]);
    assert_eq!(run(vec![LuaValue::Integer(1)]).unwrap(), vec![string("ello")]);
    assert_eq!(
        run(vec![LuaValue::Integer(1), LuaValue::Integer(2)]).unwrap(),
        vec![string("el")]
    );
    assert_eq!(
        run(vec![LuaValue::Integer(1), LuaValue::Integer(99)]).unwrap(),
        vec![string("ello")]
    );
    assert_eq!(run(vec![LuaValue::Integer(6)]).unwrap_err(), "bad argument #2 (out of range)");
}

#[test]
fn what_is_put_in_front_is_read_first() {
    let mut buf = buffer(b"body");
    let lua = stack(vec![LuaValue::LightUserData(1), string("a"), string("bc")]);
    assert_eq!(write_front(&mut buf, &lua), Ok(()));
    assert_eq!((buf.bytes.as_slice(), buf.front), (b"abcbody".as_slice(), 1));
    let three = stack(vec![LuaValue::LightUserData(1), LuaValue::Integer(3)]);
    assert_eq!(read(&mut buf, &three), Ok(b"abc".to_vec()));
    assert_eq!((buf.bytes.as_slice(), buf.front), (b"body".as_slice(), 4));
    let much = stack(vec![LuaValue::LightUserData(1), string("12345")]);
    assert_eq!(write_front(&mut buf, &much).unwrap_err(), "no more front space");
    let bad = stack(vec![LuaValue::LightUserData(1), LuaValue::Integer(1), string("x")]);
    assert_eq!(write_front(&mut buf, &bad).unwrap_err(), "bad argument #2 (string expected)");
    assert_eq!(buf.bytes, b"xbody");
    let far = stack(vec![LuaValue::LightUserData(1), LuaValue::Integer(6)]);
    assert_eq!(read(&mut buf, &far).unwrap_err(), "bad argument #2 (out of range)");
    let none = stack(vec![LuaValue::LightUserData(1)]);
    assert_eq!(read(&mut buf, &none).unwrap_err(), "expected integer, got None");
}

#[test]
fn writing_appends_until_something_is_wrong() {
    let mut buf = buffer(b"");
    let lua = stack(vec![
        LuaValue::LightUserData(1),
        string("a"),
        LuaValue::Integer(1),
        LuaValue::Nil,
        LuaValue::Boolean(false),
        list(vec![]),
        string("never"),
    ]);
    assert_eq!(moon::buffer_read::write(&mut buf, &lua).unwrap_err(), "unsupport type :table");
    assert_eq!(buf.bytes, b"a1false");
    assert_eq!(buf.len(), 7);
    buf.clear();
    assert_eq!(buf.len(), 0);
}

#[test]
fn buffer_arguments_are_checked() {
    let bad = "bad argument #1 (invalid `Buffer` pointer)";
    assert_eq!(get_buffer_ptr(&stack(vec![])).unwrap_err(), bad);
    assert_eq!(get_buffer_ptr(&stack(vec![LuaValue::LightUserData(0)])).unwrap_err(), bad);
    assert_eq!(get_buffer_ptr(&stack(vec![LuaValue::LightUserData(5)])), Ok(5));
    assert_eq!(new_capacity(&stack(vec![]), 128), Ok(128));
    assert_eq!(new_capacity(&stack(vec![LuaValue::Integer(9)]), 128), Ok(9));
    assert_eq!(
        new_capacity(&stack(vec![LuaValue::Integer(-1)]), 128).unwrap_err(),
        "bad argument #1 (invalid capacity)"
    );
}

#[test]
fn digests_are_the_known_ones() {
    assert_eq!(hash("md5", b"").unwrap(), "d41d8cd98f00b204e9800998ecf8427e");
    assert_eq!(hash("sha1", b"abc").unwrap(), "a9993e364706816aba3e25717850c26c9cd0d89d");
    assert_eq!(
        hash("sha224", b"abc").unwrap(),
        "23097d223405d8228642a477bda255b32aadbce4bda0b3f7e36c9da7"
    );
    assert_eq!(
        hash("sha256", b"abc").unwrap(),
        "ba7816bf8f01cfea414140de5dae2223b00361a396177a9cb410ff61f20015ad"
    );
    assert_eq!(hash("sha384", b"abc").unwrap().len(), 96);
    assert!(hash("sha384", b"abc").unwrap().starts_with("cb00753f45a35e8bb5a03d699ac65007"));
    assert!(hash("sha512", b"abc").unwrap().starts_with("ddaf35a193617abacc417349ae204131"));
    assert_eq!(hash("crc", b"abc").unwrap_err(), "unsupported hasher crc");
    assert_eq!(select_hasher("sha1"), Some(Hasher::Sha1));
    assert_eq!(use_hasher(Hasher::Sha512, b"abc").len(), 64);
    assert_eq!(to_hex_string(&[0, 10, 255]), "000aff");
}

#[test]
fn base64_goes_there_and_back() {
    for (data, text) in [
        ("", ""),
        ("f", "Zg=="),
        ("fo", "Zm8="),
        ("foo", "Zm9v"),
        ("foob", "Zm9vYg=="),
        ("fooba", "Zm9vYmE="),
        ("foobar", "Zm9vYmFy"),
    ] {
        assert_eq!(base64_encode(data.as_bytes()), text);
        assert_eq!(base64_decode(text).unwrap(), data.as_bytes());
    }
    assert_eq!(base64_encode(&[0xfb, 0xff, 0xbe]), "+/++");
    for (bad, message) in [
        ("Zg", "Invalid padding"),
        ("Zg=", "Invalid padding"),
        ("Zm9vYmE", "Invalid padding"),
        ("Zh==", "Invalid last symbol 104, offset 1."),
        ("Zm9vYmF=", "Invalid last symbol 70, offset 6."),
        ("Zm9v\n", "Invalid symbol 10, offset 4."),
        ("a!bc!", "Invalid symbol 33, offset 4."),
        ("a!bcd", "Invalid symbol 33, offset 1."),
        ("Zm9v====", "Invalid symbol 61, offset 4."),
        ("Zm==Zm9v", "Invalid symbol 61, offset 2."),
        ("Zm=v", "Invalid symbol 61, offset 2."),
        ("Z===", "Invalid symbol 61, offset 1."),
        ("!!!!", "Invalid symbol 33, offset 0."),
        ("=", "Invalid symbol 61, offset 0."),
        ("\u{e9}", "Invalid symbol 195, offset 0."),
        ("Zm9vZ", "Invalid input length: 5"),
        ("Z", "Invalid input length: 1"),
    ] {
        assert_eq!(base64_decode(bad).unwrap_err(), message, "{}", bad);
    }
    let all: Vec<u8> = (0..=255).collect();
    assert_eq!(base64_decode(&base64_encode(&all)).unwrap(), all);
}
