//! What answers of the database say to callbacks, and what the task that runs
//! requests does at each turn.
use vstd::prelude::*;
use vstd::string::*;
use vstd::utf8::*;

use crate::bson::{lua_fields, lua_of, Cut, Item};
use crate::laux::field_key;
use crate::mongo::{whose, Doc, Request, Whose};
use crate::mongo_options::FindSet;
use crate::mongo_reply::{
    answer_vals, docs_table, ids_table, second_of, update_table, Response, Second, Updated,
};
use crate::mongo_task::{after, transient, FailureKind, Flow, Happening, Move, Next, Out, Phase};
use crate::table_laws::{lemma_set, lemma_settled, tidy};
use crate::value::{lemma_find, trimmed, Tab, Val};

verus! {

/// A table with the given entries and nothing else.
pub open spec fn only(es: Seq<(Val, Val)>) -> Val {
    Val::Table(
        Tab { array: Seq::empty(), hash: es, pairs: None, object: false, address: 0 },
    )
}

/// A text as a string.
pub open spec fn string(s: Seq<char>) -> Val {
    Val::Str(encode_utf8(s), None)
}

proof fn lemma_one(key: &str, v: Val)
    requires
        !(v is Nil),
    ensures
        Val::Table(Tab::empty().set(field_key(key), v)) == only(seq![(field_key(key), v)]),
{
    let t = Tab::empty();
    lemma_find(t.hash, field_key(key));
    assert(t.hash.push((field_key(key), v)) =~= seq![(field_key(key), v)]);
}

proof fn lemma_two(key: &str, v: Val, other: &str, w: Val)
    requires
        !(v is Nil),
        !(w is Nil),
        key@ != other@,
    ensures
        Val::Table(Tab::empty().set(field_key(key), v).set(field_key(other), w)) == only(
            seq![(field_key(key), v), (field_key(other), w)],
        ),
{
    lemma_one(key, v);
    encode_utf8_decode_utf8(key@);
    encode_utf8_decode_utf8(other@);
    let t = Tab::empty().set(field_key(key), v);
    lemma_find(t.hash, field_key(other));
    assert(t.hash.push((field_key(other), w)) =~= seq![
        (field_key(key), v),
        (field_key(other), w),
    ]);
}

proof fn lemma_three(k1: &str, v1: Val, k2: &str, v2: Val, k3: &str, v3: Val)
    requires
        !(v1 is Nil),
        !(v2 is Nil),
        !(v3 is Nil),
        k1@ != k2@,
        k1@ != k3@,
        k2@ != k3@,
    ensures
        Val::Table(
            Tab::empty().set(field_key(k1), v1).set(field_key(k2), v2).set(field_key(k3), v3),
        ) == only(seq![(field_key(k1), v1), (field_key(k2), v2), (field_key(k3), v3)]),
{
    lemma_two(k1, v1, k2, v2);
    encode_utf8_decode_utf8(k1@);
    encode_utf8_decode_utf8(k2@);
    encode_utf8_decode_utf8(k3@);
    let t = Tab::empty().set(field_key(k1), v1).set(field_key(k2), v2);
    lemma_find(t.hash, field_key(k3));
    assert(t.hash[0].0 == field_key(k1));
    assert(t.hash[1].0 == field_key(k2));
    assert(t.hash.push((field_key(k3), v3)) =~= seq![
        (field_key(k1), v1),
        (field_key(k2), v2),
        (field_key(k3), v3),
    ]);
}

/// What simple answers say: one table with the count, the id, the name or the
/// switch under its own key.
pub proof fn law_simple_answers_say_one_thing(n: u64, b: bool, s: Seq<char>)
    requires
        n < 0x8000_0000_0000_0000,
    ensures
        answer_vals(Response::Connect) == seq![only(seq![(field_key("message"), string("Ok"@))])],
        answer_vals(Response::CreateCollection) == seq![
            only(seq![(field_key("message"), string("Ok"@))]),
        ],
        answer_vals(Response::InsertOne(s)) == seq![
            only(seq![(field_key("inserted_id"), string(s))]),
        ],
        answer_vals(Response::DeleteOne(n)) == seq![
            only(seq![(field_key("deleted_count"), Val::Int(n as i64))]),
        ],
        answer_vals(Response::DeleteMany(n)) == seq![
            only(seq![(field_key("deleted_count"), Val::Int(n as i64))]),
        ],
        answer_vals(Response::Count(n)) == seq![
            only(seq![(field_key("count"), Val::Int(n as i64))]),
        ],
        answer_vals(Response::Exists(b)) == seq![only(seq![(field_key("exists"), Val::Bool(b))])],
        answer_vals(Response::CreateIndex(s)) == seq![only(seq![(field_key("name"), string(s))])],
        answer_vals(Response::FindOne(None)) == seq![Val::Nil],
{
    lemma_one("message", string("Ok"@));
    lemma_one("inserted_id", string(s));
    lemma_one("deleted_count", Val::Int(n as i64));
    lemma_one("count", Val::Int(n as i64));
    lemma_one("exists", Val::Bool(b));
    lemma_one("name", string(s));
}

/// An error is reported by its kind and its message.
pub proof fn law_errors_say_what_is_wrong(message: Seq<char>)
    ensures
        answer_vals(Response::Error(message)) == seq![
            only(
                seq![
                    (field_key("kind"), string("ERROR"@)),
                    (field_key("message"), string(message)),
                ],
            ),
        ],
{
    reveal_strlit("kind");
    reveal_strlit("message");
    assert("kind"@.len() != "message"@.len());
    lemma_two("kind", string("ERROR"@), "message", string(message));
}

/// An update is reported by how many documents it matched and how many it
/// changed; a replacement in the same way.
pub proof fn law_updates_say_what_they_did(u: Updated)
    requires
        u.matched_count < 0x8000_0000_0000_0000,
        u.modified_count < 0x8000_0000_0000_0000,
    ensures
        ({
            let counts = only(
                seq![
                    (field_key("matched_count"), Val::Int(u.matched_count as i64)),
                    (field_key("modified_count"), Val::Int(u.modified_count as i64)),
                ],
            );
            &&& answer_vals(Response::ReplacOne(u)) == seq![counts]
            &&& u.upserted_id is None ==> answer_vals(Response::UpdateOne(u)) == seq![counts]
            &&& u.upserted_id is None ==> answer_vals(Response::UpdateMany(u)) == seq![counts]
        }),
{
    reveal_strlit("matched_count");
    reveal_strlit("modified_count");
    assert("matched_count"@.len() != "modified_count"@.len());
    lemma_two(
        "matched_count",
        Val::Int(u.matched_count as i64),
        "modified_count",
        Val::Int(u.modified_count as i64),
    );
}

/// An update that made a new document is also reported with its id, as what that
/// is in Lua.
pub proof fn law_upserts_say_the_new_id(u: Updated, v: Val)
    requires
        u.matched_count < 0x8000_0000_0000_0000,
        u.modified_count < 0x8000_0000_0000_0000,
        u.upserted_id is Some,
        lua_of(u.upserted_id->0) == Ok::<Val, Cut>(v),
        !(v is Nil),
    ensures
        ({
            let all = only(
                seq![
                    (field_key("matched_count"), Val::Int(u.matched_count as i64)),
                    (field_key("modified_count"), Val::Int(u.modified_count as i64)),
                    (field_key("upserted_id"), v),
                ],
            );
            &&& answer_vals(Response::UpdateOne(u)) == seq![all]
            &&& answer_vals(Response::UpdateMany(u)) == seq![all]
        }),
{
    reveal_strlit("matched_count");
    reveal_strlit("modified_count");
    reveal_strlit("upserted_id");
    assert("matched_count"@.len() == 13);
    assert("modified_count"@.len() == 14);
    assert("upserted_id"@.len() == 11);
    lemma_three(
        "matched_count",
        Val::Int(u.matched_count as i64),
        "modified_count",
        Val::Int(u.modified_count as i64),
        "upserted_id",
        v,
    );
}

proof fn lemma_docs(docs: Seq<Doc>, done: Seq<Val>)
    requires
        forall|i: int| 0 <= i < done.len() ==> (#[trigger] done[i]) is Table,
    ensures
        docs_table(docs, done) matches Ok(v) ==> v is Table && {
            let t = v->Table_0;
            &&& t.hash.len() == 0
            &&& t.array.len() == done.len() + docs.len()
            &&& t.array.take(done.len() as int) == done
            &&& forall|i: int|
                0 <= i < docs.len() ==> lua_fields(#[trigger] docs[i], Tab::empty()) is Ok
                    && t.array[done.len() + i] == Val::Table(
                    lua_fields(docs[i], Tab::empty())->Ok_0,
                )
        },
    decreases docs.len(),
{
    if docs.len() == 0 {
        let t = Tab { array: done, ..Tab::empty() };
        assert(trimmed(done) == done);
        lemma_find(t.hash, Val::Int((done.len() + 1) as i64));
        assert(t.absorbed() == t);
        assert(done.take(done.len() as int) =~= done);
    } else if let Ok(v) = docs_table(docs, done) {
        let d = Val::Table(lua_fields(docs[0], Tab::empty())->Ok_0);
        let next = done.push(d);
        let rest = docs.skip(1);
        lemma_docs(rest, next);
        let t = v->Table_0;
        assert(t.array.take(next.len() as int)[done.len() as int] == d);
        assert(t.array.take(done.len() as int) =~= done) by {
            assert forall|i: int| 0 <= i < done.len() implies t.array[i] == done[i] by {
                assert(t.array.take(next.len() as int)[i] == next[i]);
            }
        }
        assert forall|i: int| 0 <= i < docs.len() implies lua_fields(
            #[trigger] docs[i],
            Tab::empty(),
        ) is Ok && t.array[done.len() + i] == Val::Table(
            lua_fields(docs[i], Tab::empty())->Ok_0,
        ) by {
            if i > 0 {
                assert(docs[i] == rest[i - 1]);
                assert(next.len() + (i - 1) == done.len() + i);
            }
        }
    }
}

/// A query is answered with a sequence of the documents found, all of them and in
/// their order, each as a table. Where it comes in batches, what follows is the
/// handle for the next one as long as there is more, and nil after the last.
pub proof fn law_queries_give_what_was_found(docs: Seq<Doc>, more: bool)
    requires
        forall|i: int|
            0 <= i < docs.len() ==> lua_fields(#[trigger] docs[i], Tab::empty()) is Ok,
    ensures
        ({
            let vs = answer_vals(Response::Find(docs));
            &&& vs.len() == 1
            &&& vs[0] is Table
            &&& vs[0]->Table_0.hash.len() == 0
            &&& vs[0]->Table_0.array.len() == docs.len()
            &&& forall|i: int|
                0 <= i < docs.len() ==> #[trigger] vs[0]->Table_0.array[i] == Val::Table(
                    lua_fields(docs[i], Tab::empty())->Ok_0,
                )
        }),
        answer_vals(Response::FindBatch(docs, more)) == answer_vals(Response::Find(docs)),
        second_of(Response::Find(docs)) == Second::Nothing,
        second_of(Response::FindBatch(docs, true)) == Second::Handle,
        second_of(Response::FindBatch(docs, false)) == Second::End,
{
    lemma_docs_ok(docs, Seq::empty());
    lemma_docs(docs, Seq::empty());
    let vs = answer_vals(Response::Find(docs));
    assert forall|i: int| 0 <= i < docs.len() implies #[trigger] vs[0]->Table_0.array[i]
        == Val::Table(lua_fields(docs[i], Tab::empty())->Ok_0) by {
        assert(lua_fields(docs[i], Tab::empty()) is Ok);
        assert(vs[0]->Table_0.array[0 + i] == Val::Table(
            lua_fields(docs[i], Tab::empty())->Ok_0,
        ));
    }
}

proof fn lemma_docs_ok(docs: Seq<Doc>, done: Seq<Val>)
    requires
        forall|i: int|
            0 <= i < docs.len() ==> lua_fields(#[trigger] docs[i], Tab::empty()) is Ok,
    ensures
        docs_table(docs, done) is Ok,
    decreases docs.len(),
{
    if docs.len() > 0 {
        assert(lua_fields(docs[0], Tab::empty()) is Ok);
        let rest = docs.skip(1);
        assert forall|i: int| 0 <= i < rest.len() implies lua_fields(
            #[trigger] rest[i],
            Tab::empty(),
        ) is Ok by {
            assert(rest[i] == docs[i + 1]);
        }
        lemma_docs_ok(rest, done.push(Val::Table(lua_fields(docs[0], Tab::empty())->Ok_0)));
    }
}

/// One document found is answered as its table.
pub proof fn law_found_documents_are_tables(d: Doc)
    ensures
        lua_fields(d, Tab::empty()) matches Ok(t) ==> answer_vals(Response::FindOne(Some(d)))
            == seq![Val::Table(t)],
{
}

proof fn lemma_ids(ids: Seq<(u64, Item)>, t: Tab)
    requires
        tidy(t),
        t.array.len() == 0,
        t.hash.len() + ids.len() < i64::MAX,
        forall|i: int| 0 <= i < ids.len() ==> (#[trigger] ids[i]).0 < 0x8000_0000_0000_0000,
        forall|i: int, j: int|
            0 <= i < j < ids.len() ==> (#[trigger] ids[i]).0 != (#[trigger] ids[j]).0,
    ensures
        ids_table(ids, t) matches Ok(v) ==> v is Table && {
            &&& forall|i: int|
                0 <= i < ids.len() ==> lua_of((#[trigger] ids[i]).1) == Ok::<Val, Cut>(
                    v->Table_0.get(Val::Int(ids[i].0 as i64)),
                )
            &&& forall|n: i64|
                (forall|i: int| 0 <= i < ids.len() ==> (#[trigger] ids[i]).0 != n)
                    ==> #[trigger] v->Table_0.get(Val::Int(n)) == t.get(Val::Int(n))
        },
    decreases ids.len(),
{
    if ids.len() == 0 {
        assert forall|n: i64| #[trigger] t.settled().get(Val::Int(n)) == t.get(Val::Int(n)) by {
            lemma_settled(t, Val::Int(n));
        }
    } else if let Ok(v) = ids_table(ids, t) {
        let rest = ids.skip(1);
        assert(ids[0].0 < 0x8000_0000_0000_0000);
        let k = Val::Int(ids[0].0 as i64);
        let x = lua_of(ids[0].1)->Ok_0;
        let next = t.set(k, x);
        lemma_set(t, k, x, k);
        lemma_find(t.hash, k);
        assert(next.array.len() == 0);
        assert forall|i: int| 0 <= i < rest.len() implies (#[trigger] rest[i]).0
            < 0x8000_0000_0000_0000 by {
            assert(rest[i] == ids[i + 1]);
        }
        assert forall|i: int, j: int| 0 <= i < j < rest.len() implies (#[trigger] rest[i]).0 != (
        #[trigger] rest[j]).0 by {
            assert(rest[i] == ids[i + 1]);
            assert(rest[j] == ids[j + 1]);
        }
        lemma_ids(rest, next);
        let n0 = ids[0].0 as i64;
        assert forall|i: int| 0 <= i < rest.len() implies (#[trigger] rest[i]).0 != n0 by {
            assert(rest[i] == ids[i + 1]);
            assert(ids[0].0 != ids[i + 1].0);
        }
        assert(v->Table_0.get(Val::Int(n0)) == next.get(Val::Int(n0)));
        assert forall|i: int| 0 <= i < ids.len() implies lua_of((#[trigger] ids[i]).1) == Ok::<
            Val,
            Cut,
        >(v->Table_0.get(Val::Int(ids[i].0 as i64))) by {
            if i > 0 {
                assert(ids[i] == rest[i - 1]);
            }
        }
        assert forall|n: i64|
            (forall|i: int| 0 <= i < ids.len() ==> (#[trigger] ids[i]).0 != n) implies #[trigger] v->Table_0.get(
            Val::Int(n),
        ) == t.get(Val::Int(n)) by {
            assert(ids[0].0 != n);
            assert forall|i: int| 0 <= i < rest.len() implies (#[trigger] rest[i]).0 != n by {
                assert(rest[i] == ids[i + 1]);
            }
            lemma_set(t, k, x, Val::Int(n));
        }
    }
}

/// Inserted ids are answered under the places of their documents, each as what it
/// is in Lua, with nothing under any other place.
pub proof fn law_inserted_ids_keep_their_places(ids: Seq<(u64, Item)>)
    requires
        ids.len() < i64::MAX,
        forall|i: int| 0 <= i < ids.len() ==> (#[trigger] ids[i]).0 < 0x8000_0000_0000_0000,
        forall|i: int, j: int|
            0 <= i < j < ids.len() ==> (#[trigger] ids[i]).0 != (#[trigger] ids[j]).0,
    ensures
        ids_table(ids, Tab::empty()) matches Ok(v) ==> v is Table && {
            &&& answer_vals(Response::InsertMany(ids)) == seq![v]
            &&& forall|i: int|
                0 <= i < ids.len() ==> lua_of((#[trigger] ids[i]).1) == Ok::<Val, Cut>(
                    v->Table_0.get(Val::Int(ids[i].0 as i64)),
                )
            &&& forall|n: i64|
                (forall|i: int| 0 <= i < ids.len() ==> (#[trigger] ids[i]).0 != n)
                    ==> #[trigger] v->Table_0.get(Val::Int(n)) is Nil
        },
{
    lemma_ids(ids, Tab::empty());
    assert forall|n: i64| #[trigger] Tab::empty().get(Val::Int(n)) is Nil by {
        lemma_find(Tab::empty().hash, Val::Int(n));
    }
}

/// An answer that cannot be made is an error report on top, whatever is left
/// below it, and nothing follows.
pub proof fn law_failed_answers_end_in_the_report(r: Response)
    ensures
        answer_vals(r).len() >= 1,
        answer_vals(r).len() > 1 ==> {
            &&& second_of(r) == Second::Nothing
            &&& exists|m: Seq<char>| answer_vals(r).last() == #[trigger] answer_vals(
                Response::Error(m),
            )[0]
        },
{
    let vs = answer_vals(r);
    if vs.len() > 1 {
        let m = match r {
            Response::InsertMany(ids) => ids_table(ids, Tab::empty())->Err_0.message,
            Response::UpdateOne(u) => update_table(u)->Err_0.message,
            Response::UpdateMany(u) => update_table(u)->Err_0.message,
            Response::FindOne(Some(d)) => lua_of(Item::Document(d))->Err_0.message,
            Response::Find(ds) => docs_table(ds, Seq::empty())->Err_0.message,
            Response::FindBatch(ds, _) => docs_table(ds, Seq::empty())->Err_0.message,
            _ => Seq::empty(),
        };
        assert(vs.last() == answer_vals(Response::Error(m))[0]);
    }
}

/// A failure may pass where it is one of the network, or where the driver says that
/// the write may be repeated; no other may.
pub proof fn law_network_failures_may_pass(retryable: bool)
    ensures
        transient(FailureKind::Io, retryable),
        transient(FailureKind::ServerSelection, retryable),
        transient(FailureKind::ConnectionPoolCleared, retryable),
        transient(FailureKind::DnsResolve, retryable),
        transient(FailureKind::Other, retryable) <==> retryable,
{
}

/// What a request that nobody waits for comes to: its success is told to nobody,
/// a failure that may pass keeps it, and any other is dropped with its text. The
/// first failure that may pass is reported, the others are not.
pub proof fn law_unawaited_requests_are_kept_or_dropped(
    r: Request,
    reported: bool,
    res: Response,
    text: Seq<char>,
)
    requires
        whose(r) matches Some(w) && w.1 == 0,
    ensures
        after(Phase::Executing(r, reported), Happening::Finished(res)) == (
            Phase::Waiting,
            Move { out: Out::Nothing, count_down: true, next: Next::Receive },
        ),
        after(Phase::Executing(r, reported), Happening::Failed(true, text)) == (
            Phase::Executing(r, true),
            Move { out: Out::Nothing, count_down: false, next: Next::Pause { report: !reported } },
        ),
        after(Phase::Executing(r, reported), Happening::Failed(false, text)) == (
            Phase::Waiting,
            Move { out: Out::Dropped(text), count_down: true, next: Next::Receive },
        ),
{
}

/// What a request that somebody waits for comes to: its outcome goes to them under
/// their session, and so does a failure, of whatever kind.
pub proof fn law_awaited_requests_come_back(
    r: Request,
    reported: bool,
    res: Response,
    passing: bool,
    text: Seq<char>,
)
    requires
        whose(r) matches Some(w) && w.1 != 0,
    ensures
        ({
            let w = whose(r)->0;
            &&& after(Phase::Executing(r, reported), Happening::Finished(res)) == (
                Phase::Waiting,
                Move { out: Out::Value(w.0, w.1, res), count_down: true, next: Next::Receive },
            )
            &&& after(Phase::Executing(r, reported), Happening::Failed(passing, text)) == (
                Phase::Waiting,
                Move {
                    out: Out::Value(w.0, w.1, Response::Error(text)),
                    count_down: true,
                    next: Next::Receive,
                },
            )
        }),
{
}

/// What a stream comes to: a batch goes out when it is full, with word that there
/// is more, and at the end with word that there is not; the next one is for
/// whoever asks, under their session. A failure goes out under the session's
/// negation, and a stream that is given up says nothing.
pub proof fn law_streams_go_out_batch_by_batch(
    f: Flow,
    d: Doc,
    text: Seq<char>,
    owner: i64,
    session: i64,
)
    requires
        f.batch.len() < f.batch_size,
        f.session > i64::MIN,
    ensures
        f.batch.len() + 1 < f.batch_size ==> after(Phase::Streaming(f), Happening::Fetched(d)) == (
            Phase::Streaming(Flow { batch: f.batch.push(d), ..f }),
            Move { out: Out::Nothing, count_down: false, next: Next::Fetch },
        ),
        f.batch.len() + 1 == f.batch_size ==> after(Phase::Streaming(f), Happening::Fetched(d))
            == (
            Phase::Parked(Flow { batch: Seq::empty(), ..f }),
            Move {
                out: Out::Value(
                    f.owner,
                    f.session,
                    Response::FindBatch(f.batch.push(d), true),
                ),
                count_down: false,
                next: Next::AwaitSignal,
            },
        ),
        after(Phase::Streaming(f), Happening::Exhausted) == (
            Phase::Waiting,
            Move {
                out: Out::Value(f.owner, f.session, Response::FindBatch(f.batch, false)),
                count_down: true,
                next: Next::Receive,
            },
        ),
        after(Phase::Streaming(f), Happening::FetchFailed(text)) == (
            Phase::Waiting,
            Move {
                out: Out::Error(f.owner, (-f.session) as i64, text),
                count_down: true,
                next: Next::Receive,
            },
        ),
        after(Phase::Parked(f), Happening::Next(owner, session)) == (
            Phase::Streaming(Flow { owner, session, batch: f.batch, batch_size: f.batch_size }),
            Move { out: Out::Nothing, count_down: false, next: Next::Fetch },
        ),
        after(Phase::Parked(f), Happening::Abandoned) == (
            Phase::Waiting,
            Move { out: Out::Nothing, count_down: true, next: Next::Receive },
        ),
{
}

/// What a request that is received leads to: a close to the draining of the queue,
/// a streamed query to the opening of its cursor, any other to being run.
pub proof fn law_received_requests_are_begun(r: Request)
    ensures
        ({
            let (p, m) = after(Phase::Waiting, Happening::Received(r));
            &&& m.out == Out::Nothing
            &&& !m.count_down
            &&& match r {
                Request::Close => p == Phase::Stopped && m.next == Next::Drain,
                Request::FindStream(_, _, _, _) => p == Phase::Executing(r, false) && m.next
                    == Next::OpenStream,
                _ => p == Phase::Executing(r, false) && m.next == Next::Execute,
            }
        }),
{
}

/// A request that waited is run again as it is; a cursor that opened starts an
/// empty batch of the size asked for; one that could not is reported under the
/// session's negation.
pub proof fn law_requests_go_on(
    r: Request,
    reported: bool,
    w: Whose,
    d: Doc,
    o: Option<FindSet>,
    n: usize,
    text: Seq<char>,
)
    requires
        n > 0,
        w.session > i64::MIN,
    ensures
        after(Phase::Executing(r, reported), Happening::Waited) == (
            Phase::Executing(r, reported),
            Move { out: Out::Nothing, count_down: false, next: Next::Execute },
        ),
        after(Phase::Executing(Request::FindStream(w, d, o, n), reported), Happening::Opened) == (
            Phase::Streaming(
                Flow {
                    owner: w.owner,
                    session: w.session,
                    batch: Seq::empty(),
                    batch_size: n,
                },
            ),
            Move { out: Out::Nothing, count_down: false, next: Next::Fetch },
        ),
        after(
            Phase::Executing(Request::FindStream(w, d, o, n), reported),
            Happening::OpenFailed(text),
        ) == (
            Phase::Waiting,
            Move {
                out: Out::Error(w.owner, (-w.session) as i64, text),
                count_down: true,
                next: Next::Receive,
            },
        ),
{
}

/// An event that does not belong to what the task is doing ends it, and so does the
/// end of the queue.
pub proof fn law_stray_events_end_the_task(r: Request, f: Flow, e: Happening)
    ensures
        after(Phase::Stopped, e) == (
            Phase::Stopped,
            Move { out: Out::Nothing, count_down: false, next: Next::End },
        ),
        !(e is Received) ==> after(Phase::Waiting, e) == (
            Phase::Stopped,
            Move { out: Out::Nothing, count_down: false, next: Next::End },
        ),
        !(e is Next) && !(e is Abandoned) ==> after(Phase::Parked(f), e) == (
            Phase::Stopped,
            Move { out: Out::Nothing, count_down: false, next: Next::End },
        ),
{
}

/// Inserted ids are answered with a table where each of them has a Lua value.
pub proof fn law_inserted_ids_are_answered(ids: Seq<(u64, Item)>, t: Tab)
    requires
        forall|i: int| 0 <= i < ids.len() ==> lua_of((#[trigger] ids[i]).1) is Ok,
    ensures
        ids_table(ids, t) is Ok,
    decreases ids.len(),
{
    if ids.len() > 0 {
        assert(lua_of(ids[0].1) is Ok);
        let rest = ids.skip(1);
        assert forall|i: int| 0 <= i < rest.len() implies lua_of((#[trigger] rest[i]).1) is Ok by {
            assert(rest[i] == ids[i + 1]);
        }
        let k = crate::mongo_reply::count_val(ids[0].0);
        law_inserted_ids_are_answered(rest, t.set(k, lua_of(ids[0].1)->Ok_0));
    }
}

} // verus!
