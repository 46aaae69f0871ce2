//! Database requests, read from callback arguments.
use vstd::prelude::*;
use vstd::string::*;
use vstd::utf8::*;

use crate::bson::{doc_of, lua_to_doc, slot_doc, table_to_doc, Document, Item};
use crate::cursor::{entries_from, law_walk_meets_every_entry, walk, Place};
use crate::laux::{slot_integer, LuaArgs, LuaStack};
use crate::mongo_options::{
    create_set, extract_create_index_options, extract_find_options, extract_index_options, find_set,
    index_set, CreateIndexOptions, CreateSet, FindOptions, FindSet, IndexOptions, IndexSet,
};
use crate::text::{decimal, push_u64, same_text};
use crate::value::{kind_name, kind_of, LuaValue, Val};

verus! {

/// The address of an actor.
pub type ActorId = i64;

/// Bounds that the host sets.
#[derive(Clone, Copy, Debug, PartialEq, Eq, Structural)]
pub struct Limits {
    /// The most documents that one query may return.
    pub db_query_rows: usize,
    /// The batch size of a streamed query that names none.
    pub db_stream_batch_rows: i64,
    /// The queue length of a connection that names none.
    pub request_queue_capacity: usize,
}

/// Who asks, under which session, and what collection it is about.
#[derive(Debug, PartialEq)]
pub struct Target {
    pub owner: ActorId,
    pub session: i64,
    pub db_name: String,
    pub collection_name: String,
}

/// A request to the database. `Close` ends the connection and has no answer.
#[derive(Debug, PartialEq)]
pub enum DatabaseRequest {
    CreateCollection(Target),
    InsertOne(Target, Document),
    InsertMany(Target, Vec<Document>),
    DeleteOne(Target, Document),
    DeleteMany(Target, Document),
    UpdateOne(Target, Document, Document),
    UpdateMany(Target, Document, Document),
    FindOne(Target, Document),
    Find(Target, Document, Option<FindOptions>),
    ReplacOne(Target, Document, Document),
    Count(Target, Document),
    Exists(Target, Document),
    CreateIndex(Target, Document, Option<IndexOptions>, Option<CreateIndexOptions>),
    FindStream(Target, Document, Option<FindOptions>, usize),
    Close,
}

/// Model of a document.
pub type Doc = Seq<(Seq<char>, Item)>;

/// Model of [`Target`].
pub struct Whose {
    pub owner: ActorId,
    pub session: i64,
    pub db_name: Seq<char>,
    pub collection_name: Seq<char>,
}

/// Model of [`DatabaseRequest`].
pub enum Request {
    CreateCollection(Whose),
    InsertOne(Whose, Doc),
    InsertMany(Whose, Seq<Doc>),
    DeleteOne(Whose, Doc),
    DeleteMany(Whose, Doc),
    UpdateOne(Whose, Doc, Doc),
    UpdateMany(Whose, Doc, Doc),
    FindOne(Whose, Doc),
    Find(Whose, Doc, Option<FindSet>),
    ReplacOne(Whose, Doc, Doc),
    Count(Whose, Doc),
    Exists(Whose, Doc),
    CreateIndex(Whose, Doc, Option<IndexSet>, Option<CreateSet>),
    FindStream(Whose, Doc, Option<FindSet>, usize),
    Close,
}

impl View for Target {
    type V = Whose;

    open spec fn view(&self) -> Whose {
        Whose {
            owner: self.owner,
            session: self.session,
            db_name: self.db_name@,
            collection_name: self.collection_name@,
        }
    }
}

pub open spec fn view_docs(docs: Vec<Document>) -> Seq<Doc> {
    docs@.map_values(|d: Document| d@)
}

pub open spec fn view_option<T: View>(o: Option<T>) -> Option<T::V> {
    match o {
        Some(x) => Some(x@),
        None => None,
    }
}

impl View for DatabaseRequest {
    type V = Request;

    open spec fn view(&self) -> Request {
        match *self {
            DatabaseRequest::CreateCollection(w) => Request::CreateCollection(w@),
            DatabaseRequest::InsertOne(w, d) => Request::InsertOne(w@, d@),
            DatabaseRequest::InsertMany(w, ds) => Request::InsertMany(w@, view_docs(ds)),
            DatabaseRequest::DeleteOne(w, d) => Request::DeleteOne(w@, d@),
            DatabaseRequest::DeleteMany(w, d) => Request::DeleteMany(w@, d@),
            DatabaseRequest::UpdateOne(w, d, e) => Request::UpdateOne(w@, d@, e@),
            DatabaseRequest::UpdateMany(w, d, e) => Request::UpdateMany(w@, d@, e@),
            DatabaseRequest::FindOne(w, d) => Request::FindOne(w@, d@),
            DatabaseRequest::Find(w, d, o) => Request::Find(w@, d@, view_option(o)),
            DatabaseRequest::ReplacOne(w, d, e) => Request::ReplacOne(w@, d@, e@),
            DatabaseRequest::Count(w, d) => Request::Count(w@, d@),
            DatabaseRequest::Exists(w, d) => Request::Exists(w@, d@),
            DatabaseRequest::CreateIndex(w, d, i, c) => Request::CreateIndex(
                w@,
                d@,
                view_option(i),
                view_option(c),
            ),
            DatabaseRequest::FindStream(w, d, o, n) => Request::FindStream(
                w@,
                d@,
                view_option(o),
                n,
            ),
            DatabaseRequest::Close => Request::Close,
        }
    }
}

/// Whom a request is answered to.
pub open spec fn whose(r: Request) -> Option<(ActorId, i64)> {
    match r {
        Request::CreateCollection(w) => Some((w.owner, w.session)),
        Request::InsertOne(w, _) => Some((w.owner, w.session)),
        Request::InsertMany(w, _) => Some((w.owner, w.session)),
        Request::DeleteOne(w, _) => Some((w.owner, w.session)),
        Request::DeleteMany(w, _) => Some((w.owner, w.session)),
        Request::UpdateOne(w, _, _) => Some((w.owner, w.session)),
        Request::UpdateMany(w, _, _) => Some((w.owner, w.session)),
        Request::FindOne(w, _) => Some((w.owner, w.session)),
        Request::Find(w, _, _) => Some((w.owner, w.session)),
        Request::ReplacOne(w, _, _) => Some((w.owner, w.session)),
        Request::Count(w, _) => Some((w.owner, w.session)),
        Request::Exists(w, _) => Some((w.owner, w.session)),
        Request::CreateIndex(w, _, _, _) => Some((w.owner, w.session)),
        Request::FindStream(w, _, _, _) => Some((w.owner, w.session)),
        Request::Close => None,
    }
}

impl DatabaseRequest {
    /// Whom the request is answered to.
    pub fn owner_session(&self) -> (r: Option<(ActorId, i64)>)
        ensures
            r == whose(self@),
    {
        match self {
            DatabaseRequest::CreateCollection(t)
            | DatabaseRequest::InsertOne(t, _)
            | DatabaseRequest::InsertMany(t, _)
            | DatabaseRequest::DeleteOne(t, _)
            | DatabaseRequest::DeleteMany(t, _)
            | DatabaseRequest::UpdateOne(t, _, _)
            | DatabaseRequest::UpdateMany(t, _, _)
            | DatabaseRequest::FindOne(t, _)
            | DatabaseRequest::Find(t, _, _)
            | DatabaseRequest::ReplacOne(t, _, _)
            | DatabaseRequest::Count(t, _)
            | DatabaseRequest::Exists(t, _)
            | DatabaseRequest::CreateIndex(t, _, _, _)
            | DatabaseRequest::FindStream(t, _, _, _) => Some((t.owner, t.session)),
            DatabaseRequest::Close => None,
        }
    }
}

/// Two outcomes of which the first error wins, brought together.
pub open spec fn paired<A, B>(a: Result<A, Seq<char>>, b: Result<B, Seq<char>>) -> Result<
    (A, B),
    Seq<char>,
> {
    match a {
        Err(e) => Err(e),
        Ok(x) => match b {
            Err(e) => Err(e),
            Ok(y) => Ok((x, y)),
        },
    }
}

/// The documents of entry values, which must all be tables.
pub open spec fn docs_of(es: Seq<(Val, Val)>, done: Seq<Doc>) -> Result<Seq<Doc>, Seq<char>>
    decreases es.len(),
{
    if es.len() == 0 {
        Ok(done)
    } else {
        match es[0].1 {
            Val::Table(t) => match doc_of(t) {
                Err(e) => Err(e),
                Ok(d) => docs_of(es.skip(1), done.push(d)),
            },
            v => Err("Invalid type: "@ + kind_name(kind_of(v))),
        }
    }
}

/// The documents in a slot; what is no table has none.
pub open spec fn slot_docs(v: Option<Val>) -> Result<Seq<Doc>, Seq<char>> {
    match v {
        Some(Val::Table(t)) => docs_of(t.entries(), Seq::empty()),
        _ => Ok(Seq::empty()),
    }
}

/// The query options in a slot; what is no table gives none.
pub open spec fn slot_find(v: Option<Val>) -> Result<Option<FindSet>, Seq<char>> {
    match v {
        Some(Val::Table(t)) => match find_set(t.entries(), FindSet::unset()) {
            Ok(o) => Ok(Some(o)),
            Err(e) => Err(e),
        },
        _ => Ok(None),
    }
}

/// The index options in a slot; what is no table gives none.
pub open spec fn slot_index(v: Option<Val>) -> Result<Option<IndexSet>, Seq<char>> {
    match v {
        Some(Val::Table(t)) => match index_set(t.entries(), IndexSet::unset()) {
            Ok(o) => Ok(Some(o)),
            Err(e) => Err(e),
        },
        _ => Ok(None),
    }
}

/// The creation options in a slot; what is no table gives none.
pub open spec fn slot_create(v: Option<Val>) -> Result<Option<CreateSet>, Seq<char>> {
    match v {
        Some(Val::Table(t)) => match create_set(t.entries(), CreateSet::unset()) {
            Ok(o) => Ok(Some(o)),
            Err(e) => Err(e),
        },
        _ => Ok(None),
    }
}

/// The batch size in a slot: a positive number up to the limit.
pub open spec fn slot_batch(v: Option<Val>, limits: Limits) -> Result<usize, Seq<char>> {
    let n = match slot_integer(v) {
        Some(i) => i,
        None => limits.db_stream_batch_rows,
    };
    if n < 1 || n > limits.db_query_rows {
        Err(
            "find_stream: batch_size must be between 1 and "@ + decimal(
                limits.db_query_rows as int,
            ),
        )
    } else {
        Ok(n as usize)
    }
}

/// The request that an operation name and the arguments from a place on stand
/// for.
pub open spec fn request_of(
    w: Whose,
    op: Seq<char>,
    lua: LuaStack,
    at: int,
    limits: Limits,
) -> Result<Request, Seq<char>> {
    let doc = slot_doc(lua.slot(at));
    let two = paired(doc, slot_doc(lua.slot(at + 1)));
    let query = paired(doc, slot_find(lua.slot(at + 1)));
    if op == "create_coll"@ {
        Ok(Request::CreateCollection(w))
    } else if op == "insert_one"@ {
        match doc {
            Ok(d) => Ok(Request::InsertOne(w, d)),
            Err(e) => Err(e),
        }
    } else if op == "insert_many"@ {
        match slot_docs(lua.slot(at)) {
            Ok(ds) => Ok(Request::InsertMany(w, ds)),
            Err(e) => Err(e),
        }
    } else if op == "delete_one"@ {
        match doc {
            Ok(d) => Ok(Request::DeleteOne(w, d)),
            Err(e) => Err(e),
        }
    } else if op == "delete_many"@ {
        match doc {
            Ok(d) => Ok(Request::DeleteMany(w, d)),
            Err(e) => Err(e),
        }
    } else if op == "update_one"@ {
        match two {
            Ok((d, u)) => Ok(Request::UpdateOne(w, d, u)),
            Err(e) => Err(e),
        }
    } else if op == "update_many"@ {
        match two {
            Ok((d, u)) => Ok(Request::UpdateMany(w, d, u)),
            Err(e) => Err(e),
        }
    } else if op == "find_one"@ {
        match doc {
            Ok(d) => Ok(Request::FindOne(w, d)),
            Err(e) => Err(e),
        }
    } else if op == "find"@ {
        match query {
            Ok((d, o)) => Ok(Request::Find(w, d, o)),
            Err(e) => Err(e),
        }
    } else if op == "replace_one"@ {
        match two {
            Ok((d, u)) => Ok(Request::ReplacOne(w, d, u)),
            Err(e) => Err(e),
        }
    } else if op == "count"@ {
        match doc {
            Ok(d) => Ok(Request::Count(w, d)),
            Err(e) => Err(e),
        }
    } else if op == "exists"@ {
        match doc {
            Ok(d) => Ok(Request::Exists(w, d)),
            Err(e) => Err(e),
        }
    } else if op == "create_index"@ {
        match paired(
            paired(doc, slot_index(lua.slot(at + 1))),
            slot_create(lua.slot(at + 2)),
        ) {
            Ok(((d, i), c)) => Ok(Request::CreateIndex(w, d, i, c)),
            Err(e) => Err(e),
        }
    } else if op == "find_stream"@ {
        match paired(query, slot_batch(lua.slot(at + 2), limits)) {
            Ok(((d, o), n)) => Ok(Request::FindStream(w, d, o, n)),
            Err(e) => Err(e),
        }
    } else if op == "close"@ {
        Ok(Request::Close)
    } else {
        Err("Invalid operation: "@ + op)
    }
}

/// Reads the documents at an index.
fn docs_at(lua: &LuaStack, index: i32) -> (r: Result<Vec<Document>, String>)
    requires
        lua.wf(),
        index > 0,
    ensures
        match slot_docs(lua.slot(index as int)) {
            Ok(ds) => r matches Ok(got) && view_docs(got) == ds,
            Err(e) => r matches Err(m) && m@ == e,
        },
{
    let mut docs: Vec<Document> = Vec::new();
    assert(view_docs(docs) =~= Seq::empty());
    let t = match lua.at(index) {
        Some(LuaValue::Table(t)) => t,
        _ => {
            return Ok(docs);
        },
    };
    let mut place = Place { elements: 0, others: 0 };
    proof {
        law_walk_meets_every_entry(t@);
    }
    let ghost want = docs_of(t@.entries(), Seq::empty());
    loop
        invariant
            place.within(t@),
            want == slot_docs(lua.slot(index as int)),
            want == docs_of(entries_from(t@, place.at()), view_docs(docs)),
        decreases t@.array.len() + t@.hash.len() - place.at(),
    {
        match walk(t, place) {
            None => {
                return Ok(docs);
            },
            Some((_key, value, next)) => {
                let ghost rest = entries_from(t@, place.at());
                let d = lua_to_doc(value)?;
                let ghost before = docs;
                docs.push(d);
                assert(view_docs(docs) =~= view_docs(before).push(d@));
                place = next;
            },
        }
    }
}

/// Reads the query options at an index.
fn find_at(lua: &LuaStack, index: i32) -> (r: Result<Option<FindOptions>, String>)
    requires
        lua.wf(),
        index > 0,
    ensures
        match slot_find(lua.slot(index as int)) {
            Ok(o) => r matches Ok(got) && view_option(got) == o,
            Err(e) => r matches Err(m) && m@ == e,
        },
{
    match lua.at(index) {
        Some(LuaValue::Table(t)) => {
            let o = extract_find_options(t)?;
            Ok(Some(o))
        },
        _ => Ok(None),
    }
}

/// Reads the index options at an index.
fn index_at(lua: &LuaStack, index: i32) -> (r: Result<Option<IndexOptions>, String>)
    requires
        lua.wf(),
        index > 0,
    ensures
        match slot_index(lua.slot(index as int)) {
            Ok(o) => r matches Ok(got) && view_option(got) == o,
            Err(e) => r matches Err(m) && m@ == e,
        },
{
    match lua.at(index) {
        Some(LuaValue::Table(t)) => {
            let o = extract_index_options(t)?;
            Ok(Some(o))
        },
        _ => Ok(None),
    }
}

/// Reads the creation options at an index.
fn create_at(lua: &LuaStack, index: i32) -> (r: Result<Option<CreateIndexOptions>, String>)
    requires
        lua.wf(),
        index > 0,
    ensures
        match slot_create(lua.slot(index as int)) {
            Ok(o) => r matches Ok(got) && view_option(got) == o,
            Err(e) => r matches Err(m) && m@ == e,
        },
{
    match lua.at(index) {
        Some(LuaValue::Table(t)) => {
            let o = extract_create_index_options(t)?;
            Ok(Some(o))
        },
        _ => Ok(None),
    }
}

/// Reads the batch size at an index.
fn batch_at(lua: &LuaStack, index: i32, limits: &Limits) -> (r: Result<usize, String>)
    requires
        lua.wf(),
        index > 0,
    ensures
        match slot_batch(lua.slot(index as int), *limits) {
            Ok(n) => r matches Ok(got) && got == n,
            Err(e) => r matches Err(m) && m@ == e,
        },
{
    let n: i64 = match lua.opt::<i64>(index) {
        Some(n) => n,
        None => limits.db_stream_batch_rows,
    };
    if n < 1 || n as u64 > limits.db_query_rows as u64 {
        let mut m = "find_stream: batch_size must be between 1 and ".to_owned();
        push_u64(&mut m, limits.db_query_rows as u64);
        return Err(m);
    }
    Ok(n as usize)
}

/// Makes the request that an operation name and the next arguments stand for.
pub fn make_request(
    target: Target,
    op_name: &str,
    lua: &LuaStack,
    args: LuaArgs,
    limits: &Limits,
) -> (r: Result<DatabaseRequest, String>)
    requires
        lua.wf(),
        0 < args.current < i32::MAX - 3,
    ensures
        match request_of(target@, op_name@, *lua, args.current as int, *limits) {
            Ok(req) => r matches Ok(got) && got@ == req,
            Err(e) => r matches Err(m) && m@ == e,
        },
{
    let mut args = args;
    if same_text(op_name, "create_coll") {
        Ok(DatabaseRequest::CreateCollection(target))
    } else if same_text(op_name, "insert_one") {
        let doc = table_to_doc(lua, args.iter_arg())?;
        Ok(DatabaseRequest::InsertOne(target, doc))
    } else if same_text(op_name, "insert_many") {
        let docs = docs_at(lua, args.iter_arg())?;
        Ok(DatabaseRequest::InsertMany(target, docs))
    } else if same_text(op_name, "delete_one") {
        let filter = table_to_doc(lua, args.iter_arg())?;
        Ok(DatabaseRequest::DeleteOne(target, filter))
    } else if same_text(op_name, "delete_many") {
        let filter = table_to_doc(lua, args.iter_arg())?;
        Ok(DatabaseRequest::DeleteMany(target, filter))
    } else if same_text(op_name, "update_one") {
        let filter = table_to_doc(lua, args.iter_arg())?;
        let update = table_to_doc(lua, args.iter_arg())?;
        Ok(DatabaseRequest::UpdateOne(target, filter, update))
    } else if same_text(op_name, "update_many") {
        let filter = table_to_doc(lua, args.iter_arg())?;
        let update = table_to_doc(lua, args.iter_arg())?;
        Ok(DatabaseRequest::UpdateMany(target, filter, update))
    } else if same_text(op_name, "find_one") {
        let filter = table_to_doc(lua, args.iter_arg())?;
        Ok(DatabaseRequest::FindOne(target, filter))
    } else if same_text(op_name, "find") {
        let filter = table_to_doc(lua, args.iter_arg())?;
        let options = find_at(lua, args.iter_arg())?;
        Ok(DatabaseRequest::Find(target, filter, options))
    } else if same_text(op_name, "replace_one") {
        let filter = table_to_doc(lua, args.iter_arg())?;
        let replacement = table_to_doc(lua, args.iter_arg())?;
        Ok(DatabaseRequest::ReplacOne(target, filter, replacement))
    } else if same_text(op_name, "count") {
        let filter = table_to_doc(lua, args.iter_arg())?;
        Ok(DatabaseRequest::Count(target, filter))
    } else if same_text(op_name, "exists") {
        let filter = table_to_doc(lua, args.iter_arg())?;
        Ok(DatabaseRequest::Exists(target, filter))
    } else if same_text(op_name, "create_index") {
        let keys = table_to_doc(lua, args.iter_arg())?;
        let index_options = index_at(lua, args.iter_arg())?;
        let options = create_at(lua, args.iter_arg())?;
        Ok(DatabaseRequest::CreateIndex(target, keys, index_options, options))
    } else if same_text(op_name, "find_stream") {
        let filter = table_to_doc(lua, args.iter_arg())?;
        let options = find_at(lua, args.iter_arg())?;
        let batch_size = batch_at(lua, args.iter_arg(), limits)?;
        Ok(DatabaseRequest::FindStream(target, filter, options, batch_size))
    } else if same_text(op_name, "close") {
        Ok(DatabaseRequest::Close)
    } else {
        let mut m = "Invalid operation: ".to_owned();
        m.append(op_name);
        Err(m)
    }
}

} // verus!
