use moon::laux::{LuaStack, LuaState};
use moon::uuid::{
    is_uid, issue_next, resume, serverid, split, type_of, UuidError, UuidState, SEQUENCE_MAX,
    UID_SEQUENCE_MAX,
};
use moon::value::{LuaNumber, LuaString, LuaValue, TableValue};

fn stack(slots: Vec<LuaValue>) -> LuaStack {
    LuaStack::new(LuaState(1), slots, 1000)
}

fn num(n: i64) -> LuaValue {
    LuaValue::Integer(n)
}

fn string(s: &str) -> LuaValue {
    LuaValue::String(LuaString { bytes: s.as_bytes().to_vec(), integer: None })
}

fn started() -> UuidState {
    let mut u = UuidState::new();
    u.init(&stack(vec![num(1), num(100)])).unwrap();
    u
}

fn message(e: UuidError) -> String {
    match e {
        UuidError::Message(m) => m,
        UuidError::BadArgument(i) => format!("bad argument {}", i),
    }
}

#[test]
fn ids_split_into_what_they_were_made_of() {
    let mut u = started();
    let uid = u.next(&stack(vec![num(0)])).unwrap();
    assert_eq!(split(uid), (0, 100, 1, 1));
    assert_eq!(uid, (1 << 40) | (100 << 24) | 1);
    assert!(is_uid(uid));
    assert_eq!(serverid(uid), 100);
    assert_eq!(
        message(type_of(uid).unwrap_err()),
        "uuid.type: attempt to get type from a non-uuid value"
    );

    let id = u.next(&stack(vec![num(5)])).unwrap();
    assert_eq!(split(id), (5, 100, 1, 0));
    assert_eq!(id, (5 << 53) | (100 << 37) | 1);
    assert!(!is_uid(id));
    assert_eq!(serverid(id), 100);
    assert_eq!(type_of(id), Ok(5));
    assert!(uid >= 0 && id >= 0);
}

#[test]
fn counters_are_per_type_and_move_by_one() {
    let mut u = started();
    let a = u.next(&stack(vec![])).unwrap();
    let b = u.next(&stack(vec![LuaValue::Nil])).unwrap();
    assert_eq!(b, a + 1);
    assert_eq!(split(u.next(&stack(vec![num(1023)])).unwrap()).2, 1);
    assert_eq!(split(u.next(&stack(vec![num(1023)])).unwrap()).2, 2);
    let explicit = u.next(&stack(vec![num(1023), num(42)])).unwrap();
    assert_eq!(split(explicit), (1023, 100, 42, 0));
    assert_eq!(split(u.next(&stack(vec![num(1023), string("x")])).unwrap()).2, 3);
}

#[test]
fn next_checks_its_arguments() {
    let mut u = UuidState::new();
    assert_eq!(message(u.next(&stack(vec![])).unwrap_err()), "uuid.next: not init");
    let mut u = started();
    for bad in [-1, 1024] {
        assert_eq!(
            message(u.next(&stack(vec![num(bad)])).unwrap_err()),
            "uuid.next: type out of limit (0..=1023)"
        );
    }
    assert_eq!(u.next(&stack(vec![string("x")])), Err(UuidError::BadArgument(1)));
    for bad in [-1, SEQUENCE_MAX + 1] {
        assert_eq!(
            message(u.next(&stack(vec![num(3), num(bad)])).unwrap_err()),
            "uuid.next: sequence out of limit"
        );
    }
    let half = LuaValue::Number(LuaNumber { bits: 0.5f64.to_bits(), text: "0.5".to_string() });
    assert_eq!(u.next(&stack(vec![num(3), half])), Err(UuidError::BadArgument(2)));
}

#[test]
fn exhausted_counters_refuse_and_stay() {
    let mut u = started();
    u.sequence[0] = UID_SEQUENCE_MAX;
    u.sequence[7] = SEQUENCE_MAX;
    let last = u.next(&stack(vec![])).unwrap();
    assert_eq!(split(last), (0, 100, UID_SEQUENCE_MAX, 1));
    let last = u.next(&stack(vec![num(7)])).unwrap();
    assert_eq!(split(last), (7, 100, SEQUENCE_MAX, 0));
    for _ in 0..3 {
        assert_eq!(
            message(u.next(&stack(vec![])).unwrap_err()),
            "uuid.next: player uid sequence out of limit"
        );
        assert_eq!(
            message(u.next(&stack(vec![num(7)])).unwrap_err()),
            "uuid.next: sequence out of limit"
        );
    }
    assert_eq!(u.sequence[0], UID_SEQUENCE_MAX + 1);
    assert_eq!(u.sequence[7], SEQUENCE_MAX + 1);
    let mut slot = 4;
    assert_eq!(issue_next(&mut slot, 4), Some(4));
    assert_eq!(issue_next(&mut slot, 4), None);
    assert_eq!(slot, 5);
}

#[test]
fn calls_in_a_row_issue_every_number_once() {
    let mut slot = -2;
    let mut run = |n: usize| -> (Vec<Option<i64>>, i64) {
        let given = (0..n).map(|_| issue_next(&mut slot, 2)).collect();
        (given, slot)
    };
    assert_eq!(run(0), (vec![], -2));
    assert_eq!(run(3), (vec![Some(-2), Some(-1), Some(0)], 1));
    assert_eq!(run(4), (vec![Some(1), Some(2), None, None], 3));
    assert_eq!(run(2), (vec![None, None], 3));
    let mut slot = i64::MAX - 1;
    assert_eq!(issue_next(&mut slot, i64::MAX - 1), Some(i64::MAX - 1));
    assert_eq!(issue_next(&mut slot, i64::MAX - 1), None);
    assert_eq!(slot, i64::MAX);
}

#[test]
fn init_checks_its_arguments() {
    let run = |slots| UuidState::new().init(&stack(slots)).unwrap_err();
    assert_eq!(run(vec![]), UuidError::BadArgument(1));
    assert_eq!(run(vec![num(1)]), UuidError::BadArgument(2));
    for bad in [0, 256] {
        assert_eq!(
            message(run(vec![num(bad), num(1)])),
            "uuid.init: channel out of limit (1..=255)"
        );
    }
    for bad in [0, 65536] {
        assert_eq!(
            message(run(vec![num(1), num(bad)])),
            "uuid.init: serverid out of limit (1..=65535)"
        );
    }
    let short = TableValue {
        array: vec![num(1)],
        hash: vec![],
        pairs: None,
        object: false,
        address: 0,
    };
    assert_eq!(
        message(run(vec![num(1), num(1), LuaValue::Table(short)])),
        "uuid.init: sequence table size error, expected 0 or 1024, got 1"
    );
    let mut u = UuidState::new();
    let empty = LuaValue::Table(TableValue::new());
    assert_eq!(u.init(&stack(vec![num(1), num(1), empty])), Ok(()));
    assert!(u.sequence.iter().all(|n| *n == 1));
}

#[test]
fn a_bad_stored_counter_stops_the_restart_there() {
    let mut values: Vec<LuaValue> = (0..1024).map(|_| num(5)).collect();
    values[2] = string("x");
    let t = TableValue { array: values, hash: vec![], pairs: None, object: false, address: 0 };
    let mut u = UuidState::new();
    let r = u.init(&stack(vec![num(1), num(1), LuaValue::Table(t)]));
    assert_eq!(r, Err(UuidError::BadArgument(-1)));
    assert!(u.sequence[0] >= 1005 && u.sequence[1] >= 1005);
    assert_eq!(u.sequence[2], 0);
    assert_eq!((u.serverid, u.channel), (0, 0));
}

#[test]
fn restarts_resume_beyond_everything_issued() {
    let mut u = started();
    for _ in 0..50 {
        u.next(&stack(vec![])).unwrap();
        u.next(&stack(vec![num(9)])).unwrap();
    }
    for periodic in [false, true] {
        let (saved, _, server) = u.dump(periodic);
        assert_eq!(server, 100);
        assert_eq!(saved.len(), 1024);
        let margins = if periodic { (100_000, 10_000_000) } else { (0, 0) };
        assert_eq!(saved[0], num(51 + margins.0));
        assert_eq!(saved[9], num(51 + margins.1));
        assert_eq!(saved[1], num(1 + margins.1));
        let t = TableValue { array: saved, hash: vec![], pairs: None, object: false, address: 0 };
        let mut v = UuidState::new();
        v.init(&stack(vec![num(1), num(100), LuaValue::Table(t)])).unwrap();
        for (typ, start) in [(0, 51 + margins.0), (9, 51 + margins.1)] {
            let first = split(v.next(&stack(vec![num(typ)])).unwrap()).2;
            assert!(first >= start + 1_000 && first <= start + 10_000);
        }
    }
}

#[test]
fn saved_counters_are_clamped_to_their_field() {
    let mut u = started();
    u.sequence[0] = UID_SEQUENCE_MAX - 5;
    u.sequence[3] = SEQUENCE_MAX - 5;
    let (saved, full, _) = u.dump(true);
    assert_eq!(saved[0], num(UID_SEQUENCE_MAX));
    assert_eq!(saved[3], num(SEQUENCE_MAX));
    assert_eq!(full, SEQUENCE_MAX);
    assert_eq!(resume(0, UID_SEQUENCE_MAX, 1_000), UID_SEQUENCE_MAX);
    assert_eq!(resume(1, i64::MAX, 1_000), SEQUENCE_MAX);
    assert_eq!(resume(1, 5, 1_000), 1_005);
}

#[test]
fn the_fullest_counter_is_reported() {
    let mut u = started();
    let (_, full, _) = u.dump(false);
    assert_eq!(full, 0x2000);
    u.sequence[0] = 1 << 23;
    let (_, full, _) = u.dump(false);
    assert_eq!(full as f64 / (1u64 << 37) as f64, 0.5);
    u.sequence[0] = UID_SEQUENCE_MAX + 1;
    let (_, full, _) = u.dump(false);
    assert_eq!(full as f64 / (1u64 << 37) as f64, 1.0);
}

#[test]
fn decoding_takes_any_integer() {
    for v in [0i64, 1, -1, i64::MIN, i64::MAX, (1 << 53) - 1, 1 << 53, 0x1234_5678_9abc_def0] {
        let (typ, server, seq, channel) = split(v);
        if v >> 53 == 0 {
            assert_eq!(typ, 0);
            assert_eq!(server, (v >> 24) & 0xffff);
            assert_eq!(seq, v & 0xff_ffff);
            assert_eq!(channel, (v >> 40) & 0xff);
            assert!(type_of(v).is_err());
        } else {
            assert_eq!(typ, (v >> 53) & 1023);
            assert_eq!(server, (v >> 37) & 0xffff);
            assert_eq!(seq, v & 0x1f_ffff_ffff);
            assert_eq!(channel, 0);
            assert_eq!(type_of(v), Ok(typ));
        }
        assert_eq!(serverid(v), server);
    }
    assert!(!is_uid(100 << 24));
}
