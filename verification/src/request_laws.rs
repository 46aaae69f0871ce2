//! What requests say of the arguments that they are read from.
use vstd::prelude::*;
use vstd::string::*;
use vstd::utf8::*;

use crate::bson::{doc_of, slot_doc};
use crate::laux::LuaStack;
use crate::mongo::{
    docs_of, request_of, slot_batch, slot_create, slot_docs, slot_find, slot_index, whose, Doc,
    Limits, Request, Whose,
};
use crate::mongo_calls::{capacity, text_arg};
use crate::mongo_options::{create_set, find_set, index_set, CreateSet, FindSet, IndexSet};
use crate::value::{Tab, Val};

verus! {

/// A document is that of the table in a slot; what is no table stands for an empty
/// one.
pub open spec fn doc_in(v: Option<Val>, d: Doc) -> bool {
    match v {
        Some(Val::Table(t)) => doc_of(t) == Ok::<Doc, Seq<char>>(d),
        _ => d.len() == 0,
    }
}

/// Documents are those of the tables in the table in a slot, one for every entry
/// and in their order.
pub open spec fn docs_in(v: Option<Val>, ds: Seq<Doc>) -> bool {
    match v {
        Some(Val::Table(t)) => ds.len() == t.entries().len() && forall|i: int|
            0 <= i < ds.len() ==> t.entries()[i].1 is Table && doc_of(t.entries()[i].1->Table_0)
                == Ok::<Doc, Seq<char>>(#[trigger] ds[i]),
        _ => ds.len() == 0,
    }
}

/// Query options are those of the table in a slot.
pub open spec fn find_in(v: Option<Val>, o: Option<FindSet>) -> bool {
    match v {
        Some(Val::Table(t)) => o matches Some(x) && find_set(t.entries(), FindSet::unset()) == Ok::<
            FindSet,
            Seq<char>,
        >(x),
        _ => o is None,
    }
}

/// Index options are those of the table in a slot.
pub open spec fn index_in(v: Option<Val>, o: Option<IndexSet>) -> bool {
    match v {
        Some(Val::Table(t)) => o matches Some(x) && index_set(t.entries(), IndexSet::unset())
            == Ok::<IndexSet, Seq<char>>(x),
        _ => o is None,
    }
}

/// Creation options are those of the table in a slot.
pub open spec fn create_in(v: Option<Val>, o: Option<CreateSet>) -> bool {
    match v {
        Some(Val::Table(t)) => o matches Some(x) && create_set(t.entries(), CreateSet::unset())
            == Ok::<CreateSet, Seq<char>>(x),
        _ => o is None,
    }
}

/// A batch size is the integer in a slot, the host's where nothing is there, and
/// lies between one and the host's limit.
pub open spec fn batch_in(v: Option<Val>, limits: Limits, n: int) -> bool {
    &&& 1 <= n <= limits.db_query_rows
    &&& v matches Some(Val::Int(i)) ==> n == i
    &&& v is None || v == Some(Val::Nil) ==> n == limits.db_stream_batch_rows
}

proof fn lemma_docs(es: Seq<(Val, Val)>, done: Seq<Doc>)
    ensures
        docs_of(es, done) matches Ok(ds) ==> {
            &&& ds.len() == done.len() + es.len()
            &&& ds.take(done.len() as int) == done
            &&& forall|i: int|
                0 <= i < es.len() ==> (#[trigger] es[i]).1 is Table && doc_of(es[i].1->Table_0)
                    == Ok::<Doc, Seq<char>>(ds[done.len() + i])
        },
    decreases es.len(),
{
    if es.len() == 0 {
        assert(done.take(done.len() as int) =~= done);
    } else if let Ok(ds) = docs_of(es, done) {
        let d = doc_of(es[0].1->Table_0)->Ok_0;
        let next = done.push(d);
        let rest = es.skip(1);
        lemma_docs(rest, next);
        assert(ds.take(next.len() as int)[done.len() as int] == d);
        assert(ds.take(done.len() as int) =~= done) by {
            assert forall|i: int| 0 <= i < done.len() implies ds[i] == done[i] by {
                assert(ds.take(next.len() as int)[i] == next[i]);
            }
        }
        assert forall|i: int| 0 <= i < es.len() implies (#[trigger] es[i]).1 is Table && doc_of(
            es[i].1->Table_0,
        ) == Ok::<Doc, Seq<char>>(ds[done.len() + i]) by {
            if i > 0 {
                assert(es[i] == rest[i - 1]);
                assert(next.len() + (i - 1) == done.len() + i);
            }
        }
    }
}

/// The names of operations, told apart.
proof fn lemma_operations_differ()
    ensures
        "create_coll"@ != "insert_one"@,
        "create_coll"@ != "insert_many"@,
        "create_coll"@ != "delete_one"@,
        "create_coll"@ != "delete_many"@,
        "create_coll"@ != "update_one"@,
        "create_coll"@ != "update_many"@,
        "create_coll"@ != "find_one"@,
        "create_coll"@ != "find"@,
        "create_coll"@ != "replace_one"@,
        "create_coll"@ != "count"@,
        "create_coll"@ != "exists"@,
        "create_coll"@ != "create_index"@,
        "create_coll"@ != "find_stream"@,
        "create_coll"@ != "close"@,
        "insert_one"@ != "insert_many"@,
        "insert_one"@ != "delete_one"@,
        "insert_one"@ != "delete_many"@,
        "insert_one"@ != "update_one"@,
        "insert_one"@ != "update_many"@,
        "insert_one"@ != "find_one"@,
        "insert_one"@ != "find"@,
        "insert_one"@ != "replace_one"@,
        "insert_one"@ != "count"@,
        "insert_one"@ != "exists"@,
        "insert_one"@ != "create_index"@,
        "insert_one"@ != "find_stream"@,
        "insert_one"@ != "close"@,
        "insert_many"@ != "delete_one"@,
        "insert_many"@ != "delete_many"@,
        "insert_many"@ != "update_one"@,
        "insert_many"@ != "update_many"@,
        "insert_many"@ != "find_one"@,
        "insert_many"@ != "find"@,
        "insert_many"@ != "replace_one"@,
        "insert_many"@ != "count"@,
        "insert_many"@ != "exists"@,
        "insert_many"@ != "create_index"@,
        "insert_many"@ != "find_stream"@,
        "insert_many"@ != "close"@,
        "delete_one"@ != "delete_many"@,
        "delete_one"@ != "update_one"@,
        "delete_one"@ != "update_many"@,
        "delete_one"@ != "find_one"@,
        "delete_one"@ != "find"@,
        "delete_one"@ != "replace_one"@,
        "delete_one"@ != "count"@,
        "delete_one"@ != "exists"@,
        "delete_one"@ != "create_index"@,
        "delete_one"@ != "find_stream"@,
        "delete_one"@ != "close"@,
        "delete_many"@ != "update_one"@,
        "delete_many"@ != "update_many"@,
        "delete_many"@ != "find_one"@,
        "delete_many"@ != "find"@,
        "delete_many"@ != "replace_one"@,
        "delete_many"@ != "count"@,
        "delete_many"@ != "exists"@,
        "delete_many"@ != "create_index"@,
        "delete_many"@ != "find_stream"@,
        "delete_many"@ != "close"@,
        "update_one"@ != "update_many"@,
        "update_one"@ != "find_one"@,
        "update_one"@ != "find"@,
        "update_one"@ != "replace_one"@,
        "update_one"@ != "count"@,
        "update_one"@ != "exists"@,
        "update_one"@ != "create_index"@,
        "update_one"@ != "find_stream"@,
        "update_one"@ != "close"@,
        "update_many"@ != "find_one"@,
        "update_many"@ != "find"@,
        "update_many"@ != "replace_one"@,
        "update_many"@ != "count"@,
        "update_many"@ != "exists"@,
        "update_many"@ != "create_index"@,
        "update_many"@ != "find_stream"@,
        "update_many"@ != "close"@,
        "find_one"@ != "find"@,
        "find_one"@ != "replace_one"@,
        "find_one"@ != "count"@,
        "find_one"@ != "exists"@,
        "find_one"@ != "create_index"@,
        "find_one"@ != "find_stream"@,
        "find_one"@ != "close"@,
        "find"@ != "replace_one"@,
        "find"@ != "count"@,
        "find"@ != "exists"@,
        "find"@ != "create_index"@,
        "find"@ != "find_stream"@,
        "find"@ != "close"@,
        "replace_one"@ != "count"@,
        "replace_one"@ != "exists"@,
        "replace_one"@ != "create_index"@,
        "replace_one"@ != "find_stream"@,
        "replace_one"@ != "close"@,
        "count"@ != "exists"@,
        "count"@ != "create_index"@,
        "count"@ != "find_stream"@,
        "count"@ != "close"@,
        "exists"@ != "create_index"@,
        "exists"@ != "find_stream"@,
        "exists"@ != "close"@,
        "create_index"@ != "find_stream"@,
        "create_index"@ != "close"@,
        "find_stream"@ != "close"@,
{
    reveal_strlit("create_coll");
    assert("create_coll"@.len() == 11);
    reveal_strlit("insert_one");
    assert("insert_one"@.len() == 10);
    reveal_strlit("insert_many");
    assert("insert_many"@.len() == 11);
    reveal_strlit("delete_one");
    assert("delete_one"@.len() == 10);
    reveal_strlit("delete_many");
    assert("delete_many"@.len() == 11);
    reveal_strlit("update_one");
    assert("update_one"@.len() == 10);
    reveal_strlit("update_many");
    assert("update_many"@.len() == 11);
    reveal_strlit("find_one");
    assert("find_one"@.len() == 8);
    reveal_strlit("find");
    assert("find"@.len() == 4);
    reveal_strlit("replace_one");
    assert("replace_one"@.len() == 11);
    reveal_strlit("count");
    assert("count"@.len() == 5);
    reveal_strlit("exists");
    assert("exists"@.len() == 6);
    reveal_strlit("create_index");
    assert("create_index"@.len() == 12);
    reveal_strlit("find_stream");
    assert("find_stream"@.len() == 11);
    reveal_strlit("close");
    assert("close"@.len() == 5);
    assert("create_coll"@[0] != "insert_many"@[0]);
    assert("create_coll"@[0] != "delete_many"@[0]);
    assert("create_coll"@[0] != "update_many"@[0]);
    assert("create_coll"@[0] != "replace_one"@[0]);
    assert("create_coll"@[0] != "find_stream"@[0]);
    assert("insert_one"@[0] != "delete_one"@[0]);
    assert("insert_one"@[0] != "update_one"@[0]);
    assert("insert_many"@[0] != "delete_many"@[0]);
    assert("insert_many"@[0] != "update_many"@[0]);
    assert("insert_many"@[0] != "replace_one"@[0]);
    assert("insert_many"@[0] != "find_stream"@[0]);
    assert("delete_one"@[0] != "update_one"@[0]);
    assert("delete_many"@[0] != "update_many"@[0]);
    assert("delete_many"@[0] != "replace_one"@[0]);
    assert("delete_many"@[0] != "find_stream"@[0]);
    assert("update_many"@[0] != "replace_one"@[0]);
    assert("update_many"@[0] != "find_stream"@[0]);
    assert("replace_one"@[0] != "find_stream"@[0]);
    assert("count"@[1] != "close"@[1]);
}

/// A request is what was asked for: the operation of the name, for the asker, the
/// session, the database and the collection given, with the documents and options
/// in the arguments from their place on. A name that is no operation's is refused.
pub proof fn law_requests_are_what_was_asked(
    w: Whose,
    op: Seq<char>,
    lua: LuaStack,
    at: int,
    limits: Limits,
)
    ensures
        request_of(w, op, lua, at, limits) matches Ok(r) ==> match r {
            Request::CreateCollection(x) => op == "create_coll"@ && x == w,
            Request::InsertOne(x, d) => op == "insert_one"@ && x == w
                && doc_in(lua.slot(at), d),
            Request::InsertMany(x, ds) => op == "insert_many"@ && x == w
                && docs_in(lua.slot(at), ds),
            Request::DeleteOne(x, d) => op == "delete_one"@ && x == w
                && doc_in(lua.slot(at), d),
            Request::DeleteMany(x, d) => op == "delete_many"@ && x == w
                && doc_in(lua.slot(at), d),
            Request::UpdateOne(x, d, u) => op == "update_one"@ && x == w
                && doc_in(lua.slot(at), d)
                && doc_in(lua.slot(at + 1), u),
            Request::UpdateMany(x, d, u) => op == "update_many"@ && x == w
                && doc_in(lua.slot(at), d)
                && doc_in(lua.slot(at + 1), u),
            Request::FindOne(x, d) => op == "find_one"@ && x == w
                && doc_in(lua.slot(at), d),
            Request::Find(x, d, o) => op == "find"@ && x == w
                && doc_in(lua.slot(at), d)
                && find_in(lua.slot(at + 1), o),
            Request::ReplacOne(x, d, u) => op == "replace_one"@ && x == w
                && doc_in(lua.slot(at), d)
                && doc_in(lua.slot(at + 1), u),
            Request::Count(x, d) => op == "count"@ && x == w
                && doc_in(lua.slot(at), d),
            Request::Exists(x, d) => op == "exists"@ && x == w
                && doc_in(lua.slot(at), d),
            Request::CreateIndex(x, d, i, c) => op == "create_index"@ && x == w
                && doc_in(lua.slot(at), d)
                && index_in(lua.slot(at + 1), i) && create_in(lua.slot(at + 2), c),
            Request::FindStream(x, d, o, n) => op == "find_stream"@ && x == w
                && doc_in(lua.slot(at), d)
                && find_in(lua.slot(at + 1), o) && batch_in(lua.slot(at + 2), limits, n as int),
            Request::Close => op == "close"@,
        },
        op == "create_coll"@ ==> request_of(w, op, lua, at, limits) is Ok,
        op == "insert_one"@ ==> (request_of(w, op, lua, at, limits) is Ok <==> slot_doc(lua.slot(at))
            is Ok),
        op == "delete_one"@ ==> (request_of(w, op, lua, at, limits) is Ok <==> slot_doc(lua.slot(at))
            is Ok),
        op == "delete_many"@ ==> (request_of(w, op, lua, at, limits) is Ok <==> slot_doc(lua.slot(at))
            is Ok),
        op == "update_one"@ ==> (request_of(w, op, lua, at, limits) is Ok <==> slot_doc(lua.slot(at))
            is Ok && slot_doc(lua.slot(at + 1)) is Ok),
        op == "update_many"@ ==> (request_of(w, op, lua, at, limits) is Ok <==> slot_doc(lua.slot(at))
            is Ok && slot_doc(lua.slot(at + 1)) is Ok),
        op == "find_one"@ ==> (request_of(w, op, lua, at, limits) is Ok <==> slot_doc(lua.slot(at))
            is Ok),
        op == "replace_one"@ ==> (request_of(w, op, lua, at, limits) is Ok <==> slot_doc(lua.slot(at))
            is Ok && slot_doc(lua.slot(at + 1)) is Ok),
        op == "count"@ ==> (request_of(w, op, lua, at, limits) is Ok <==> slot_doc(lua.slot(at))
            is Ok),
        op == "exists"@ ==> (request_of(w, op, lua, at, limits) is Ok <==> slot_doc(lua.slot(at))
            is Ok),
        op == "close"@ ==> request_of(w, op, lua, at, limits) is Ok,
        op != "create_coll"@ && op != "insert_one"@ && op != "insert_many"@ && op !=
            "delete_one"@ && op != "delete_many"@ && op != "update_one"@ && op != "update_many"@
            && op != "find_one"@ && op != "find"@ && op != "replace_one"@ && op != "count"@ &&
            op != "exists"@ && op != "create_index"@ && op != "find_stream"@ && op != "close"@
            ==> request_of(w, op, lua, at, limits) == Err::<Request, Seq<char>>(
            "Invalid operation: "@ + op,
        ),
{
    lemma_operations_differ();
    if let Some(Val::Table(t)) = lua.slot(at) {
        lemma_docs(t.entries(), Seq::empty());
        if let Ok(ds) = slot_docs(lua.slot(at)) {
            assert forall|i: int| 0 <= i < ds.len() implies t.entries()[i].1 is Table && doc_of(
                t.entries()[i].1->Table_0,
            ) == Ok::<Doc, Seq<char>>(#[trigger] ds[i]) by {
                assert(doc_of(t.entries()[i].1->Table_0) == Ok::<Doc, Seq<char>>(ds[0 + i]));
            }
        }
    }
}

/// Every request but a close is answered to its asker under its session.
pub proof fn law_requests_are_answered_to_their_askers(
    w: Whose,
    op: Seq<char>,
    lua: LuaStack,
    at: int,
    limits: Limits,
)
    ensures
        request_of(w, op, lua, at, limits) matches Ok(r) ==> if op == "close"@ {
            whose(r) is None
        } else {
            whose(r) == Some((w.owner, w.session))
        },
{
    lemma_operations_differ();
}

/// A batch size is taken as it is where it lies between one and the limit, and is
/// refused everywhere else.
pub proof fn law_batch_sizes_are_bounded(n: i64, limits: Limits)
    ensures
        slot_batch(Some(Val::Int(n)), limits) is Ok <==> 1 <= n <= limits.db_query_rows,
        slot_batch(Some(Val::Int(n)), limits) matches Ok(m) ==> m == n,
        slot_batch(None, limits) == slot_batch(Some(Val::Int(limits.db_stream_batch_rows)), limits),
{
}

/// A text argument is the text that its bytes spell; bytes that spell none, and
/// what is no string, are refused.
pub proof fn law_text_arguments_are_their_text(s: Seq<char>, coerced: Option<i64>, v: Option<Val>)
    ensures
        text_arg(Some(Val::Str(encode_utf8(s), coerced))) == Ok::<Seq<char>, Seq<char>>(s),
        text_arg(v) matches Ok(text) ==> (v matches Some(Val::Str(b, _)) && b == encode_utf8(text)),
{
    encode_utf8_valid_utf8(s);
    encode_utf8_decode_utf8(s);
    if let Some(Val::Str(b, _)) = v {
        if valid_utf8(b) {
            decode_utf8_encode_utf8(b);
        }
    }
}

/// The queue of a connection is as long as asked for, the host's length where
/// nothing is asked, and never empty.
pub proof fn law_queues_are_as_long_as_asked(n: i64, limits: Limits, v: Option<Val>)
    requires
        0 <= n <= usize::MAX,
    ensures
        n > 0 ==> capacity(Some(Val::Int(n)), limits) == n,
        capacity(Some(Val::Int(0)), limits) == 1,
        limits.request_queue_capacity > 0 ==> capacity(None, limits)
            == limits.request_queue_capacity,
        capacity(v, limits) >= 1,
{
    vstd::arithmetic::div_mod::lemma_small_mod(n as nat, (usize::MAX + 1) as nat);
    vstd::arithmetic::div_mod::lemma_small_mod(0, (usize::MAX + 1) as nat);
}

proof fn lemma_docs_taken(es: Seq<(Val, Val)>, done: Seq<Doc>)
    ensures
        docs_of(es, done) is Ok <==> forall|i: int|
            0 <= i < es.len() ==> (#[trigger] es[i]).1 is Table && doc_of(es[i].1->Table_0) is Ok,
    decreases es.len(),
{
    if es.len() > 0 {
        let rest = es.skip(1);
        if es[0].1 is Table && doc_of(es[0].1->Table_0) is Ok {
            lemma_docs_taken(rest, done.push(doc_of(es[0].1->Table_0)->Ok_0));
            if docs_of(es, done) is Ok {
                assert forall|i: int| 0 <= i < es.len() implies (#[trigger] es[i]).1 is Table
                    && doc_of(es[i].1->Table_0) is Ok by {
                    if i > 0 {
                        assert(es[i] == rest[i - 1]);
                    }
                }
            } else {
                let i = choose|i: int|
                    0 <= i < rest.len() && !((#[trigger] rest[i]).1 is Table && doc_of(
                        rest[i].1->Table_0,
                    ) is Ok);
                assert(es[i + 1] == rest[i]);
            }
        } else {
            assert(!(es[0].1 is Table && doc_of(es[0].1->Table_0) is Ok));
        }
    }
}

/// An insertion of many is made of a table exactly where all values in it are
/// tables that can be documents; a query and the creation of an index exactly
/// where their documents and options are taken.
pub proof fn law_requests_are_made_where_their_parts_are(
    w: Whose,
    lua: LuaStack,
    at: int,
    limits: Limits,
    t: Tab,
)
    ensures
        lua.slot(at) == Some(Val::Table(t)) ==> (request_of(w, "insert_many"@, lua, at, limits)
            is Ok <==> forall|i: int|
            0 <= i < t.entries().len() ==> (#[trigger] t.entries()[i]).1 is Table && doc_of(
                t.entries()[i].1->Table_0,
            ) is Ok),
        request_of(w, "find"@, lua, at, limits) is Ok <==> slot_doc(lua.slot(at)) is Ok
            && slot_find(lua.slot(at + 1)) is Ok,
        request_of(w, "find_stream"@, lua, at, limits) is Ok <==> slot_doc(lua.slot(at)) is Ok
            && slot_find(lua.slot(at + 1)) is Ok && slot_batch(lua.slot(at + 2), limits) is Ok,
        request_of(w, "create_index"@, lua, at, limits) is Ok <==> slot_doc(lua.slot(at)) is Ok
            && slot_index(lua.slot(at + 1)) is Ok && slot_create(lua.slot(at + 2)) is Ok,
        slot_find(Some(Val::Table(t))) is Ok <==> find_set(t.entries(), FindSet::unset()) is Ok,
        slot_index(Some(Val::Table(t))) is Ok <==> index_set(t.entries(), IndexSet::unset()) is Ok,
        slot_create(Some(Val::Table(t))) is Ok <==> create_set(
            t.entries(),
            CreateSet::unset(),
        ) is Ok,
        slot_find(None) is Ok,
        slot_index(None) is Ok,
        slot_create(None) is Ok,
        slot_doc(Some(Val::Table(t))) is Ok <==> doc_of(t) is Ok,
        slot_doc(None) is Ok,
{
    lemma_operations_differ();
    lemma_docs_taken(t.entries(), Seq::empty());
}

} // verus!
