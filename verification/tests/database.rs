use moon::bson::{Bson, Document};
use moon::laux::{LuaArgs, LuaStack, LuaState};
use moon::mongo::{make_request, DatabaseRequest, Limits, Target};
use moon::mongo_calls::{
    closed_answer, connect_args, cursor_next, operators, operators_result, CursorHandle, Prepared,
};
use moon::mongo_options::{
    extract_create_index_options, extract_find_options, extract_index_options, CursorType,
};
use moon::mongo_reply::{error_table, push_mongodb_response, DatabaseResponse, Second, UpdateResult};
use moon::mongo_task::{
    collect_doc_capped, database_handler, is_transient_network_error, Event, Failure, FailureKind,
    HandlerState, Next, Outgoing, Step,
};
use moon::registry::Registry;
use moon::value::{LuaNumber, LuaString, LuaValue, TableValue};

const LIMITS: Limits =
    Limits { db_query_rows: 100, db_stream_batch_rows: 10, request_queue_capacity: 64 };

fn string(s: &str) -> LuaValue {
    LuaValue::String(LuaString { bytes: s.as_bytes().to_vec(), integer: None })
}

fn record(fields: Vec<(&str, LuaValue)>) -> LuaValue {
    let mut t = TableValue::new();
    for (k, v) in fields {
        t.set(string(k), v);
    }
    LuaValue::Table(t)
}

fn list(items: Vec<LuaValue>) -> LuaValue {
    LuaValue::Table(TableValue {
        array: items,
        hash: vec![],
        pairs: None,
        object: false,
        address: 0,
    })
}

fn as_table(v: LuaValue) -> TableValue {
    match v {
        LuaValue::Table(t) => t,
        _ => panic!("no table"),
    }
}

fn stack(slots: Vec<LuaValue>) -> LuaStack {
    LuaStack::new(LuaState(1), slots, 1000)
}

fn target(session: i64) -> Target {
    Target {
        owner: 5,
        session,
        db_name: "db".to_string(),
        collection_name: "coll".to_string(),
    }
}

fn doc(key: &str, v: Bson) -> Document {
    let mut d = Document::new();
    d.insert(key.to_string(), v);
    d
}

fn request(op: &str, args: Vec<LuaValue>) -> Result<DatabaseRequest, String> {
    make_request(target(7), op, &stack(args), LuaArgs::new(1), &LIMITS)
}

#[test]
fn every_operation_reads_its_arguments() {
    let a = || record(vec![("a", LuaValue::Integer(1))]);
    let b = || record(vec![("b", LuaValue::Integer(2))]);
    let da = || doc("a", Bson::Int64(1));
    let db = || doc("b", Bson::Int64(2));
    let t = || target(7);
    let cases = vec![
        (request("create_coll", vec![]), DatabaseRequest::CreateCollection(t())),
        (request("insert_one", vec![a()]), DatabaseRequest::InsertOne(t(), da())),
        (
            request("insert_many", vec![list(vec![a(), b()])]),
            DatabaseRequest::InsertMany(t(), vec![da(), db()]),
        ),
        (request("delete_one", vec![a()]), DatabaseRequest::DeleteOne(t(), da())),
        (request("delete_many", vec![a()]), DatabaseRequest::DeleteMany(t(), da())),
        (request("update_one", vec![a(), b()]), DatabaseRequest::UpdateOne(t(), da(), db())),
        (request("update_many", vec![a(), b()]), DatabaseRequest::UpdateMany(t(), da(), db())),
        (request("find_one", vec![a()]), DatabaseRequest::FindOne(t(), da())),
        (request("find", vec![a()]), DatabaseRequest::Find(t(), da(), None)),
        (request("replace_one", vec![a(), b()]), DatabaseRequest::ReplacOne(t(), da(), db())),
        (request("count", vec![a()]), DatabaseRequest::Count(t(), da())),
        (request("exists", vec![a()]), DatabaseRequest::Exists(t(), da())),
        (
            request("create_index", vec![a()]),
            DatabaseRequest::CreateIndex(t(), da(), None, None),
        ),
        (
            request("find_stream", vec![a(), LuaValue::Nil, LuaValue::Integer(3)]),
            DatabaseRequest::FindStream(t(), da(), None, 3),
        ),
        (request("find_stream", vec![a()]), DatabaseRequest::FindStream(t(), da(), None, 10)),
        (request("close", vec![]), DatabaseRequest::Close),
    ];
    for (got, want) in cases {
        let expected = if want == DatabaseRequest::Close { None } else { Some((5, 7)) };
        assert_eq!(want.owner_session(), expected);
        assert_eq!(got, Ok(want));
    }
}

#[test]
fn bad_operations_are_reported() {
    assert_eq!(request("drop", vec![]), Err("Invalid operation: drop".to_string()));
    let bad = || record(vec![("f", LuaValue::Function(1))]);
    for op in ["insert_one", "delete_many", "update_one", "find", "count", "find_stream"] {
        assert_eq!(request(op, vec![bad()]), Err("Invalid type: function".to_string()));
    }
    assert_eq!(
        request("insert_many", vec![list(vec![LuaValue::Integer(1)])]),
        Err("Invalid type: number".to_string())
    );
    for n in [0, -1, 101] {
        assert_eq!(
            request("find_stream", vec![record(vec![]), LuaValue::Nil, LuaValue::Integer(n)]),
            Err("find_stream: batch_size must be between 1 and 100".to_string())
        );
    }
    assert_eq!(
        request("find", vec![record(vec![]), record(vec![("x", LuaValue::Nil), ("y", string("z"))])]),
        Err("Invalid find_options key: 'y'".to_string())
    );
}

#[test]
fn find_options_are_read_by_key() {
    let o = extract_find_options(&as_table(record(vec![
        ("limit", LuaValue::Integer(-3)),
        ("skip", LuaValue::Integer(-1)),
        ("sort", record(vec![("a", LuaValue::Integer(1))])),
        ("projection", record(vec![("b", LuaValue::Integer(0))])),
        ("max_time", LuaValue::Integer(250)),
        ("batch_size", LuaValue::Integer((1 << 32) + 5)),
        ("allow_partial_results", LuaValue::Boolean(true)),
        ("no_cursor_timeout", LuaValue::Boolean(false)),
        ("cursor_type", string("TailableAwait")),
        ("read_concern", string("majority")),
    ])))
    .unwrap();
    assert_eq!(o.limit, Some(-3));
    assert_eq!(o.skip, Some(u64::MAX));
    assert_eq!(o.sort, Some(doc("a", Bson::Int64(1))));
    assert_eq!(o.projection, Some(doc("b", Bson::Int64(0))));
    assert_eq!(o.max_time, Some(250));
    assert_eq!(o.batch_size, Some(5));
    assert_eq!(o.allow_partial_results, Some(true));
    assert_eq!(o.no_cursor_timeout, Some(false));
    assert_eq!(o.cursor_type, Some(CursorType::TailableAwait));
    assert_eq!(o.read_concern.as_deref(), Some("majority"));

    let lenient = extract_find_options(&as_table(record(vec![
        ("limit", string("x")),
        ("cursor_type", LuaValue::Integer(1)),
    ])))
    .unwrap();
    assert_eq!((lenient.limit, lenient.cursor_type), (None, None));
    let skipped = extract_find_options(&as_table(list(vec![LuaValue::Integer(1)]))).unwrap();
    assert_eq!(skipped.limit, None);

    let error = |k: &str, v| extract_find_options(&as_table(record(vec![(k, v)]))).unwrap_err();
    assert_eq!(error("sort", LuaValue::Integer(1)), "Invalid sort value type: \"number\"");
    assert_eq!(
        error("projection", string("x")),
        "Invalid projection value type: \"string\""
    );
    assert_eq!(error("cursor_type", string("Other")), "Invalid cursor type: Other");
    assert_eq!(error("nope", LuaValue::Integer(1)), "Invalid find_options key: 'nope'");
}

#[test]
fn index_options_are_read_by_key() {
    let float = |x: f64| LuaValue::Number(LuaNumber { bits: x.to_bits(), text: String::new() });
    let d = || record(vec![("a", LuaValue::Integer(1))]);
    let o = extract_index_options(&as_table(record(vec![
        ("name", string("idx")),
        ("unique", LuaValue::Boolean(true)),
        ("background", LuaValue::Boolean(false)),
        ("sparse", LuaValue::Boolean(true)),
        ("storage_engine", d()),
        ("partial_filter_expression", d()),
        ("wildcard_projection", d()),
        ("hidden", LuaValue::Boolean(true)),
        ("default_language", string("en")),
        ("language_override", string("lang")),
        ("weights", d()),
        ("bits", LuaValue::Integer(26)),
        ("max", float(1.5)),
        ("min", LuaValue::Integer(2)),
        ("bucket_size", LuaValue::Integer(4)),
    ])))
    .unwrap();
    assert_eq!(o.name.as_deref(), Some("idx"));
    assert_eq!((o.unique, o.background, o.sparse), (Some(true), Some(false), Some(true)));
    for x in [o.storage_engine, o.partial_filter_expression, o.wildcard_projection, o.weights] {
        assert_eq!(x, Some(doc("a", Bson::Int64(1))));
    }
    assert_eq!(o.hidden, Some(true));
    assert_eq!(o.default_language.as_deref(), Some("en"));
    assert_eq!(o.language_override.as_deref(), Some("lang"));
    assert_eq!((o.bits, o.bucket_size), (Some(26), Some(4)));
    assert_eq!(o.max, Some(1.5f64.to_bits()));
    assert_eq!(o.min, None);
    let error = |k: &str| {
        extract_index_options(&as_table(record(vec![(k, LuaValue::Boolean(true))]))).unwrap_err()
    };
    assert_eq!(error("weights"), "Invalid weights value type: \"boolean\"");
    assert_eq!(error("storage_engine"), "Invalid storage_engine value type: \"boolean\"");
    assert_eq!(error("nope"), "Invalid key: nope");

    let c = extract_create_index_options(&as_table(record(vec![(
        "max_time",
        LuaValue::Integer(9),
    )])))
    .unwrap();
    assert_eq!(c.max_time, Some(9));
    assert_eq!(
        extract_create_index_options(&as_table(record(vec![("x", LuaValue::Integer(9))])))
            .unwrap_err(),
        "Invalid key: x"
    );
}

fn answer(r: DatabaseResponse) -> (LuaValue, Second) {
    let (mut values, second) = push_mongodb_response(&r);
    let first = values.pop().unwrap();
    assert!(values.is_empty());
    (first, second)
}

fn failed_answer(r: DatabaseResponse, message: &str) -> Vec<LuaValue> {
    let (mut values, second) = push_mongodb_response(&r);
    assert_eq!(values.pop(), Some(error_table(message)));
    assert_eq!(second, Second::Nothing);
    values
}

#[test]
fn answers_are_tables() {
    let one = |k: &str, v| (record(vec![(k, v)]), Second::Nothing);
    assert_eq!(answer(DatabaseResponse::Connect), one("message", string("Ok")));
    assert_eq!(answer(DatabaseResponse::CreateCollection), one("message", string("Ok")));
    assert_eq!(
        answer(DatabaseResponse::InsertOne("id1".to_string())),
        one("inserted_id", string("id1"))
    );
    assert_eq!(answer(DatabaseResponse::DeleteOne(3)), one("deleted_count", LuaValue::Integer(3)));
    assert_eq!(answer(DatabaseResponse::DeleteMany(0)), one("deleted_count", LuaValue::Integer(0)));
    assert_eq!(answer(DatabaseResponse::Count(8)), one("count", LuaValue::Integer(8)));
    assert_eq!(answer(DatabaseResponse::Exists(true)), one("exists", LuaValue::Boolean(true)));
    assert_eq!(
        answer(DatabaseResponse::CreateIndex("a_1".to_string())),
        one("name", string("a_1"))
    );
    assert_eq!(answer(DatabaseResponse::FindOne(None)), (LuaValue::Nil, Second::Nothing));
    assert_eq!(
        answer(DatabaseResponse::FindOne(Some(doc("a", Bson::Int64(1))))),
        one("a", LuaValue::Integer(1))
    );
    let error = record(vec![("kind", string("ERROR")), ("message", string("boom"))]);
    assert_eq!(
        answer(DatabaseResponse::Error("boom".to_string())),
        (error, Second::Nothing)
    );
    assert_eq!(
        error_table("x"),
        record(vec![("kind", string("ERROR")), ("message", string("x"))])
    );
}

#[test]
fn inserted_ids_keep_their_places() {
    let ids = vec![(1, Bson::Int64(11)), (0, Bson::Int64(10)), (2, Bson::Int64(12))];
    let t = as_table(answer(DatabaseResponse::InsertMany(ids)).0);
    for i in 0..3 {
        assert_eq!(t.get(&LuaValue::Integer(i)), Some(&LuaValue::Integer(10 + i)));
    }
    let bad = vec![(1, Bson::Int64(4)), (0, Bson::Other("MinKey".to_string()))];
    assert_eq!(
        failed_answer(DatabaseResponse::InsertMany(bad), "Unsupported BSON type: MinKey"),
        vec![list(vec![LuaValue::Integer(4)]), LuaValue::Integer(0)]
    );
}

#[test]
fn updates_report_counts_and_the_new_id() {
    let result = |id| UpdateResult { matched_count: 2, modified_count: 1, upserted_id: id };
    let counts =
        || vec![("matched_count", LuaValue::Integer(2)), ("modified_count", LuaValue::Integer(1))];
    assert_eq!(answer(DatabaseResponse::UpdateOne(result(None))).0, record(counts()));
    let mut with_id = counts();
    with_id.push(("upserted_id", LuaValue::Integer(9)));
    assert_eq!(
        answer(DatabaseResponse::UpdateMany(result(Some(Bson::Int64(9))))).0,
        record(with_id)
    );
    assert_eq!(
        answer(DatabaseResponse::ReplacOne(result(Some(Bson::Int64(9))))).0,
        record(counts())
    );
    let odd = Bson::Array(vec![Bson::Int64(7), Bson::Other("X".to_string())]);
    assert_eq!(
        failed_answer(DatabaseResponse::UpdateOne(result(Some(odd))), "Unsupported BSON type: X"),
        vec![record(counts()), string("upserted_id"), list(vec![LuaValue::Integer(7)])]
    );
}

#[test]
fn query_results_are_sequences() {
    let docs = || vec![doc("a", Bson::Int64(1)), doc("a", Bson::Int64(2))];
    let want = || {
        list(vec![
            record(vec![("a", LuaValue::Integer(1))]),
            record(vec![("a", LuaValue::Integer(2))]),
        ])
    };
    assert_eq!(answer(DatabaseResponse::Find(docs())), (want(), Second::Nothing));
    assert_eq!(
        answer(DatabaseResponse::FindBatch { docs: docs(), more: true }),
        (want(), Second::Handle)
    );
    assert_eq!(
        answer(DatabaseResponse::FindBatch { docs: docs(), more: false }),
        (want(), Second::End)
    );
    let bad = || vec![doc("a", Bson::Int64(1)), doc("b", Bson::Other("X".to_string()))];
    let left = || {
        let whole = record(vec![("a", LuaValue::Integer(1))]);
        vec![list(vec![whole]), record(vec![]), string("b")]
    };
    assert_eq!(failed_answer(DatabaseResponse::Find(bad()), "Unsupported BSON type: X"), left());
    assert_eq!(
        failed_answer(
            DatabaseResponse::FindBatch { docs: bad(), more: true },
            "Unsupported BSON type: X"
        ),
        left()
    );
    assert_eq!(
        failed_answer(DatabaseResponse::FindOne(bad().pop()), "Unsupported BSON type: X"),
        vec![record(vec![]), string("b")]
    );
}

fn failure(kind: FailureKind, retryable_write: bool) -> Failure {
    Failure { kind, retryable_write, text: "down".to_string() }
}

fn quiet(step: &Step, next: Next) {
    assert!(matches!(step.out, Outgoing::Nothing));
    assert!(!step.count_down);
    assert_eq!(step.next, next);
}

#[test]
fn awaited_requests_are_answered_once() {
    let req = DatabaseRequest::Count(target(7), Document::new());
    let (state, step) = database_handler(HandlerState::Waiting, Event::Received(req));
    quiet(&step, Next::Execute);
    let (state, step) =
        database_handler(state, Event::Finished(Err(failure(FailureKind::Io, false))));
    assert!(matches!(state, HandlerState::Waiting));
    assert!(step.count_down);
    assert_eq!(step.next, Next::Receive);
    match step.out {
        Outgoing::Value { owner: 5, session: 7, response } => {
            assert_eq!(response, DatabaseResponse::Error("down".to_string()));
        }
        _ => panic!("no answer"),
    }
}

#[test]
fn unawaited_requests_are_retried_on_network_failures() {
    let req = DatabaseRequest::Count(target(0), Document::new());
    let (mut state, step) = database_handler(HandlerState::Waiting, Event::Received(req));
    quiet(&step, Next::Execute);
    for i in 0..3 {
        let event = Event::Finished(Err(failure(FailureKind::ServerSelection, false)));
        let (s, step) = database_handler(state, event);
        quiet(&step, Next::Pause { report: i == 0 });
        let (s, step) = database_handler(s, Event::Waited);
        quiet(&step, Next::Execute);
        state = s;
    }
    let (state, step) =
        database_handler(state, Event::Finished(Err(failure(FailureKind::Other, false))));
    assert!(matches!(state, HandlerState::Waiting));
    assert!(step.count_down);
    match step.out {
        Outgoing::Dropped(text) => assert_eq!(text, "down"),
        _ => panic!("not dropped"),
    }
    let req = DatabaseRequest::Count(target(0), Document::new());
    let (state, _) = database_handler(HandlerState::Waiting, Event::Received(req));
    let (_, step) = database_handler(state, Event::Finished(Ok(DatabaseResponse::Count(1))));
    assert!(matches!(step.out, Outgoing::Nothing));
    assert!(step.count_down);
}

#[test]
fn network_failures_are_told_from_others() {
    for kind in [
        FailureKind::Io,
        FailureKind::ServerSelection,
        FailureKind::ConnectionPoolCleared,
        FailureKind::DnsResolve,
    ] {
        assert!(is_transient_network_error(&failure(kind, false)));
    }
    assert!(!is_transient_network_error(&failure(FailureKind::Other, false)));
    assert!(is_transient_network_error(&failure(FailureKind::Other, true)));
}

fn streaming(size: usize) -> HandlerState {
    let req = DatabaseRequest::FindStream(target(7), Document::new(), None, size);
    let (state, step) = database_handler(HandlerState::Waiting, Event::Received(req));
    quiet(&step, Next::OpenStream);
    let (state, step) = database_handler(state, Event::Opened);
    quiet(&step, Next::Fetch);
    state
}

#[test]
fn streams_go_out_in_full_batches() {
    let mut state = streaming(2);
    let mut sent = Vec::new();
    let mut asked = 7;
    for i in 0..5 {
        let event = Event::Fetched(Some(doc("i", Bson::Int64(i))));
        let (s, step) = database_handler(state, event);
        state = s;
        match step.out {
            Outgoing::Nothing => assert_eq!(step.next, Next::Fetch),
            Outgoing::Value { owner, session, response } => {
                assert_eq!((owner, session), (5, asked));
                assert_eq!(step.next, Next::AwaitSignal);
                match response {
                    DatabaseResponse::FindBatch { docs, more: true } => {
                        assert_eq!(docs.len(), 2);
                        sent.extend(docs);
                    }
                    _ => panic!("no batch"),
                }
                asked += 1;
                let (s, step) = database_handler(state, Event::Next(5, asked));
                quiet(&step, Next::Fetch);
                state = s;
            }
            _ => panic!("no batch"),
        }
    }
    let (state, step) = database_handler(state, Event::Fetched(None));
    assert!(matches!(state, HandlerState::Waiting));
    assert!(step.count_down);
    match step.out {
        Outgoing::Value {
            session: 9,
            response: DatabaseResponse::FindBatch { docs, more: false },
            ..
        } => sent.extend(docs),
        _ => panic!("no last batch"),
    }
    let want: Vec<Document> = (0..5).map(|i| doc("i", Bson::Int64(i))).collect();
    assert_eq!(sent, want);
}

#[test]
fn streams_end_on_failure_or_when_abandoned() {
    let (state, step) = database_handler(streaming(2), Event::FetchFailed("lost".to_string()));
    assert!(matches!(state, HandlerState::Waiting));
    assert!(step.count_down);
    match step.out {
        Outgoing::Error { owner: 5, session: -7, text } => assert_eq!(text, "lost"),
        _ => panic!("no error"),
    }
    let (state, _) = database_handler(streaming(1), Event::Fetched(Some(Document::new())));
    let (state, step) = database_handler(state, Event::Abandoned);
    assert!(matches!(state, HandlerState::Waiting));
    assert!(step.count_down && matches!(step.out, Outgoing::Nothing));
    let req = DatabaseRequest::FindStream(target(7), Document::new(), None, 1);
    let (state, _) = database_handler(HandlerState::Waiting, Event::Received(req));
    let (_, step) = database_handler(state, Event::OpenFailed("no".to_string()));
    assert!(matches!(step.out, Outgoing::Error { session: -7, .. }));
}

#[test]
fn closing_drains_and_ends() {
    let event = Event::Received(DatabaseRequest::Close);
    let (state, step) = database_handler(HandlerState::Waiting, event);
    assert!(matches!(state, HandlerState::Stopped));
    quiet(&step, Next::Drain);
    let queued = DatabaseRequest::Count(target(7), Document::new());
    assert_eq!(
        closed_answer(&queued),
        Some((5, -7, "mongodb connection closed".to_string()))
    );
    assert_eq!(closed_answer(&DatabaseRequest::Close), None);
    let (state, step) = database_handler(HandlerState::Waiting, Event::QueueClosed);
    assert!(matches!(state, HandlerState::Stopped));
    quiet(&step, Next::End);
}

#[test]
fn large_results_are_cut_off() {
    let mut docs = Vec::new();
    assert_eq!(collect_doc_capped(&mut docs, Document::new(), 1), Ok(()));
    assert_eq!(
        collect_doc_capped(&mut docs, Document::new(), 1),
        Err("find returned more than 1 documents; use find_stream for large result sets"
            .to_string())
    );
    assert_eq!(docs.len(), 1);
}

#[test]
fn connections_are_opened_by_name() {
    let run = |slots| connect_args(&stack(slots), &LIMITS);
    let c = run(vec![string("url"), string("main")]).unwrap();
    assert_eq!((c.database_url.as_str(), c.name.as_str(), c.queue_capacity), ("url", "main", 64));
    let c = run(vec![string("url"), string("main"), LuaValue::Integer(0)]).unwrap();
    assert_eq!(c.queue_capacity, 1);
    assert_eq!(
        run(vec![LuaValue::Integer(1)]).unwrap_err(),
        "mongodb.connect: expected UTF-8 string, got Integer"
    );
    assert_eq!(
        run(vec![string("url")]).unwrap_err(),
        "mongodb.connect: expected UTF-8 string, got None"
    );

    let mut reg = Registry::new();
    assert_eq!(reg.connect("a".to_string(), 1), None);
    assert_eq!(reg.connect("b".to_string(), 2), None);
    assert_eq!(reg.connect("a".to_string(), 3), Some(1));
    assert_eq!(reg.get("a"), Some(3));
    assert!(!reg.close("a", 1));
    assert_eq!(reg.find_connection(&stack(vec![string("a")])), Ok(Some(3)));
    let mut all = reg.connections();
    all.sort();
    assert_eq!(all, vec![("a".to_string(), 3), ("b".to_string(), 2)]);
    assert!(reg.close("a", 3));
    assert_eq!(reg.find_connection(&stack(vec![string("a")])), Ok(None));
    assert_eq!(
        reg.find_connection(&stack(vec![LuaValue::Nil])),
        Err("mongodb.find_connection: UTF-8 string expected".to_string())
    );
}

#[test]
fn operators_answer_or_hand_over() {
    let run = |rest: Vec<LuaValue>| {
        let mut slots = vec![LuaValue::UserData(8, 16)];
        slots.extend(rest);
        operators(&stack(slots), 5, 7, &LIMITS)
    };
    assert_eq!(
        run(vec![LuaValue::Nil]).unwrap_err(),
        "mongodb.operators: expected UTF-8 string, got Nil"
    );
    assert_eq!(
        run(vec![string("count"), LuaValue::Integer(1)]).unwrap_err(),
        "expected UTF-8 string, got Integer"
    );
    match run(vec![string("count"), string("db"), string("coll"), record(vec![])]).unwrap() {
        Prepared::Send(r) => assert_eq!(r, DatabaseRequest::Count(target(7), Document::new())),
        Prepared::Answer(_) => panic!("not sent"),
    }
    match run(vec![string("nope"), string("db"), string("coll")]).unwrap() {
        Prepared::Answer(v) => assert_eq!(v, error_table("Invalid operation: nope")),
        Prepared::Send(_) => panic!("sent"),
    }
    assert_eq!(operators_result(false, 7, Ok(())), (LuaValue::Integer(7), true));
    assert_eq!(operators_result(true, 7, Ok(())), (LuaValue::Boolean(true), false));
    assert_eq!(
        operators_result(false, 7, Err("full".to_string())),
        (error_table("full"), false)
    );
}

#[test]
fn cursor_handles_work_once() {
    let mut h = CursorHandle::new();
    assert!(h.take());
    assert!(!h.take());
    assert_eq!(cursor_next(true, true, 4), Ok(4));
    assert_eq!(cursor_next(true, false, 4), Err("cursor: stream handler is gone"));
    assert_eq!(cursor_next(false, false, 4), Err("cursor: already consumed or closed"));
}
