//! Answers of the database, as callbacks see them.
use vstd::prelude::*;
use vstd::string::*;
use vstd::utf8::*;

use crate::bson::{
    bson_to_lua, document_to_table, inside, lua_fields, lua_of, Bson, Cut, Document, Item,
    Unconverted,
};
use crate::laux::{field_key, LuaPush};
use crate::mongo::{view_docs, view_option, Doc};
use crate::number::{integer64, signed64};
use crate::value::{
    above_key, above_table, copy_bytes, lemma_list_push, listed, view_list, LuaValue, Tab,
    TableValue, Val,
};

verus! {

/// What an update did.
#[derive(Debug, PartialEq)]
pub struct UpdateResult {
    pub matched_count: u64,
    pub modified_count: u64,
    pub upserted_id: Option<Bson>,
}

/// An answer of the database. Inserted ids come as text or with the places of
/// their documents; `more` says whether further batches can be asked for.
#[derive(Debug, PartialEq)]
pub enum DatabaseResponse {
    Connect,
    CreateCollection,
    InsertOne(String),
    InsertMany(Vec<(u64, Bson)>),
    DeleteOne(u64),
    DeleteMany(u64),
    UpdateOne(UpdateResult),
    UpdateMany(UpdateResult),
    FindOne(Option<Document>),
    Find(Vec<Document>),
    FindBatch { docs: Vec<Document>, more: bool },
    ReplacOne(UpdateResult),
    Count(u64),
    Exists(bool),
    CreateIndex(String),
    Error(String),
}

/// Model of [`UpdateResult`].
pub struct Updated {
    pub matched_count: u64,
    pub modified_count: u64,
    pub upserted_id: Option<Item>,
}

/// Model of [`DatabaseResponse`].
pub enum Response {
    Connect,
    CreateCollection,
    InsertOne(Seq<char>),
    InsertMany(Seq<(u64, Item)>),
    DeleteOne(u64),
    DeleteMany(u64),
    UpdateOne(Updated),
    UpdateMany(Updated),
    FindOne(Option<Doc>),
    Find(Seq<Doc>),
    FindBatch(Seq<Doc>, bool),
    ReplacOne(Updated),
    Count(u64),
    Exists(bool),
    CreateIndex(Seq<char>),
    Error(Seq<char>),
}

impl View for UpdateResult {
    type V = Updated;

    open spec fn view(&self) -> Updated {
        Updated {
            matched_count: self.matched_count,
            modified_count: self.modified_count,
            upserted_id: view_option(self.upserted_id),
        }
    }
}

pub open spec fn view_ids(ids: Vec<(u64, Bson)>) -> Seq<(u64, Item)> {
    ids@.map_values(|e: (u64, Bson)| (e.0, e.1@))
}

impl View for DatabaseResponse {
    type V = Response;

    open spec fn view(&self) -> Response {
        match *self {
            DatabaseResponse::Connect => Response::Connect,
            DatabaseResponse::CreateCollection => Response::CreateCollection,
            DatabaseResponse::InsertOne(s) => Response::InsertOne(s@),
            DatabaseResponse::InsertMany(ids) => Response::InsertMany(view_ids(ids)),
            DatabaseResponse::DeleteOne(n) => Response::DeleteOne(n),
            DatabaseResponse::DeleteMany(n) => Response::DeleteMany(n),
            DatabaseResponse::UpdateOne(u) => Response::UpdateOne(u@),
            DatabaseResponse::UpdateMany(u) => Response::UpdateMany(u@),
            DatabaseResponse::FindOne(d) => Response::FindOne(view_option(d)),
            DatabaseResponse::Find(ds) => Response::Find(view_docs(ds)),
            DatabaseResponse::FindBatch { docs, more } => Response::FindBatch(
                view_docs(docs),
                more,
            ),
            DatabaseResponse::ReplacOne(u) => Response::ReplacOne(u@),
            DatabaseResponse::Count(n) => Response::Count(n),
            DatabaseResponse::Exists(b) => Response::Exists(b),
            DatabaseResponse::CreateIndex(s) => Response::CreateIndex(s@),
            DatabaseResponse::Error(s) => Response::Error(s@),
        }
    }
}

/// A text as a Lua string.
pub open spec fn text_val(s: Seq<char>) -> Val {
    Val::Str(encode_utf8(s), None)
}

/// A count as a Lua integer.
pub open spec fn count_val(n: u64) -> Val {
    Val::Int(signed64(n as nat) as i64)
}

/// The table with one field.
pub open spec fn one_field(key: &str, v: Val) -> Tab {
    Tab::empty().set(field_key(key), v)
}

/// The table that an error is reported with.
pub open spec fn error_val(message: Seq<char>) -> Val {
    Val::Table(
        one_field("kind", text_val("ERROR"@)).set(field_key("message"), text_val(message)),
    )
}

/// What a value puts on the stack: itself, or what is left of it and above that
/// the report of why there is none.
pub open spec fn or_error(r: Result<Val, Cut>) -> Seq<Val> {
    match r {
        Ok(v) => seq![v],
        Err(c) => c.left.push(error_val(c.message)),
    }
}

/// The table of inserted ids under the places of their documents, counted from
/// zero.
pub open spec fn ids_table(ids: Seq<(u64, Item)>, t: Tab) -> Result<Val, Cut>
    decreases ids.len(),
{
    if ids.len() == 0 {
        Ok(Val::Table(t.settled()))
    } else {
        match lua_of(ids[0].1) {
            Err(c) => Err(inside(seq![Val::Table(t.settled()), count_val(ids[0].0)], c)),
            Ok(v) => ids_table(ids.skip(1), t.set(count_val(ids[0].0), v)),
        }
    }
}

/// The sequence of document tables, after those in `done`.
pub open spec fn docs_table(docs: Seq<Doc>, done: Seq<Val>) -> Result<Val, Cut>
    decreases docs.len(),
{
    if docs.len() == 0 {
        Ok(listed(done))
    } else {
        match lua_fields(docs[0], Tab::empty()) {
            Err(c) => Err(inside(seq![listed(done)], c)),
            Ok(t) => docs_table(docs.skip(1), done.push(Val::Table(t))),
        }
    }
}

/// The table of an update's counts.
pub open spec fn counts_table(u: Updated) -> Tab {
    one_field("matched_count", count_val(u.matched_count)).set(
        field_key("modified_count"),
        count_val(u.modified_count),
    )
}

/// The table of an update's counts and its new id.
pub open spec fn update_table(u: Updated) -> Result<Val, Cut> {
    match u.upserted_id {
        None => Ok(Val::Table(counts_table(u))),
        Some(id) => match lua_of(id) {
            Err(c) => Err(
                inside(seq![Val::Table(counts_table(u)), field_key("upserted_id")], c),
            ),
            Ok(v) => Ok(Val::Table(counts_table(u).set(field_key("upserted_id"), v))),
        },
    }
}

/// What an answer puts on the stack, the lowest first. The topmost is the first
/// result; only where a document cannot be converted there is more below.
pub open spec fn answer_vals(r: Response) -> Seq<Val> {
    match r {
        Response::Connect => seq![Val::Table(one_field("message", text_val("Ok"@)))],
        Response::CreateCollection => seq![Val::Table(one_field("message", text_val("Ok"@)))],
        Response::InsertOne(id) => seq![Val::Table(one_field("inserted_id", text_val(id)))],
        Response::InsertMany(ids) => or_error(ids_table(ids, Tab::empty())),
        Response::DeleteOne(n) => seq![Val::Table(one_field("deleted_count", count_val(n)))],
        Response::DeleteMany(n) => seq![Val::Table(one_field("deleted_count", count_val(n)))],
        Response::UpdateOne(u) => or_error(update_table(u)),
        Response::UpdateMany(u) => or_error(update_table(u)),
        Response::FindOne(None) => seq![Val::Nil],
        Response::FindOne(Some(d)) => or_error(lua_of(Item::Document(d))),
        Response::Find(ds) => or_error(docs_table(ds, Seq::empty())),
        Response::FindBatch(ds, _) => or_error(docs_table(ds, Seq::empty())),
        Response::ReplacOne(u) => seq![Val::Table(counts_table(u))],
        Response::Count(n) => seq![Val::Table(one_field("count", count_val(n)))],
        Response::Exists(b) => seq![Val::Table(one_field("exists", Val::Bool(b)))],
        Response::CreateIndex(name) => seq![Val::Table(one_field("name", text_val(name)))],
        Response::Error(e) => seq![error_val(e)],
    }
}

/// What comes after the first result of an answer.
#[derive(Clone, Copy, Debug, PartialEq, Eq, Structural)]
pub enum Second {
    /// Nothing: there is one result.
    Nothing,
    /// A second result, nil: there are no further batches.
    End,
    /// A second result, the handle by which the next batch is asked for.
    Handle,
}

/// What comes after the first result of an answer.
pub open spec fn second_of(r: Response) -> Second {
    match r {
        Response::FindBatch(ds, more) => if docs_table(ds, Seq::empty()) is Err {
            Second::Nothing
        } else if more {
            Second::Handle
        } else {
            Second::End
        },
        _ => Second::Nothing,
    }
}

/// Sets a field of a table.
fn put<T: LuaPush>(t: &mut TableValue, key: &str, v: T)
    ensures
        final(t)@ == old(t)@.set(field_key(key), v.pushed()),
{
    t.set(LuaValue::from_bytes(copy_bytes(key.as_bytes())), v.into_value());
}

/// The table with one field.
fn one<T: LuaPush>(key: &str, v: T) -> (r: LuaValue)
    ensures
        r@ == Val::Table(one_field(key, v.pushed())),
{
    let mut t = TableValue::new();
    put(&mut t, key, v);
    LuaValue::Table(t)
}

/// The table that an error is reported with.
pub fn error_table(message: &str) -> (r: LuaValue)
    ensures
        r@ == error_val(message@),
{
    let mut t = TableValue::new();
    put(&mut t, "kind", "ERROR");
    put(&mut t, "message", message);
    LuaValue::Table(t)
}

/// A value alone on the stack.
fn alone(v: LuaValue) -> (r: Vec<LuaValue>)
    ensures
        view_list(r) == seq![v@],
{
    let mut r: Vec<LuaValue> = Vec::new();
    r.push(v);
    assert(view_list(r) =~= seq![v@]);
    r
}

/// A value, or what is left of it and above that the report of why there is none.
fn value_or_error(r: Result<LuaValue, Unconverted>) -> (vs: Vec<LuaValue>)
    ensures
        match r {
            Ok(v) => view_list(vs) == seq![v@],
            Err(e) => view_list(vs) == view_list(e.left).push(error_val(e.message@)),
        },
{
    match r {
        Ok(v) => alone(v),
        Err(e) => {
            let report = error_table(e.message.as_str());
            let mut vs = e.left;
            vs.push(report);
            proof {
                lemma_list_push(e.left, vs, report);
            }
            vs
        },
    }
}

/// How a value turned out, against the outcome it is meant to have.
pub open spec fn val_meant(r: Result<LuaValue, Unconverted>, want: Result<Val, Cut>) -> bool {
    match want {
        Ok(v) => r matches Ok(got) && got@ == v,
        Err(c) => r matches Err(got) && got@ == c,
    }
}

/// The table of inserted ids.
fn ids_value(ids: &Vec<(u64, Bson)>) -> (r: Result<LuaValue, Unconverted>)
    ensures
        val_meant(r, ids_table(view_ids(*ids), Tab::empty())),
{
    let mut t = TableValue::new();
    let ghost es = view_ids(*ids);
    let ghost want = ids_table(es, Tab::empty());
    let mut i: usize = 0;
    assert(es.skip(0) =~= es);
    while i < ids.len()
        invariant
            es == view_ids(*ids),
            i <= es.len(),
            want == ids_table(es, Tab::empty()),
            want == ids_table(es.skip(i as int), t@),
        decreases es.len() - i,
    {
        assert(es.skip(i as int)[0] == (ids@[i as int].0, ids@[i as int].1@));
        assert(es.skip(i as int).skip(1) =~= es.skip(i + 1));
        let key = LuaValue::Integer(integer64(ids[i].0));
        let v = match bson_to_lua(&ids[i].1) {
            Ok(v) => v,
            Err(e) => {
                t.settle();
                return Err(Unconverted { message: e.message, left: above_key(t, key, e.left) });
            },
        };
        t.set(key, v);
        i = i + 1;
    }
    assert(es.skip(i as int) =~= Seq::empty());
    t.settle();
    Ok(LuaValue::Table(t))
}

/// The sequence of document tables.
fn docs_value(docs: &Vec<Document>) -> (r: Result<LuaValue, Unconverted>)
    ensures
        val_meant(r, docs_table(view_docs(*docs), Seq::empty())),
{
    let mut list = TableValue::new();
    let ghost ds = view_docs(*docs);
    let ghost want = docs_table(ds, Seq::empty());
    let mut i: usize = 0;
    assert(ds.skip(0) =~= ds);
    while i < docs.len()
        invariant
            ds == view_docs(*docs),
            i <= ds.len(),
            want == docs_table(ds, Seq::empty()),
            want == docs_table(ds.skip(i as int), list@.array),
            list@ == (Tab { array: list@.array, ..Tab::empty() }),
        decreases ds.len() - i,
    {
        assert(ds.skip(i as int)[0] == docs@[i as int]@);
        assert(ds.skip(i as int).skip(1) =~= ds.skip(i + 1));
        let v = match document_to_table(&docs[i]) {
            Ok(t) => LuaValue::Table(t),
            Err(e) => {
                list.settle();
                return Err(Unconverted { message: e.message, left: above_table(list, e.left) });
            },
        };
        let ghost before = list.array;
        list.array.push(v);
        proof {
            lemma_list_push(before, list.array, v);
        }
        i = i + 1;
    }
    assert(ds.skip(i as int) =~= Seq::empty());
    list.settle();
    Ok(LuaValue::Table(list))
}

/// The table of an update's counts.
fn counts(u: &UpdateResult) -> (r: TableValue)
    ensures
        r@ == counts_table(u@),
{
    let mut t = TableValue::new();
    put(&mut t, "matched_count", u.matched_count);
    put(&mut t, "modified_count", u.modified_count);
    t
}

/// The table of an update's counts and its new id.
fn update_value(u: &UpdateResult) -> (r: Result<LuaValue, Unconverted>)
    ensures
        val_meant(r, update_table(u@)),
{
    let mut t = counts(u);
    if let Some(id) = &u.upserted_id {
        let key = LuaValue::from_bytes(copy_bytes("upserted_id".as_bytes()));
        let v = match bson_to_lua(id) {
            Ok(v) => v,
            Err(e) => {
                return Err(Unconverted { message: e.message, left: above_key(t, key, e.left) });
            },
        };
        t.set(key, v);
    }
    Ok(LuaValue::Table(t))
}

/// The values that an answer puts on the stack, the lowest first, and what comes
/// after them. The topmost is the first result.
pub fn push_mongodb_response(result: &DatabaseResponse) -> (r: (Vec<LuaValue>, Second))
    ensures
        view_list(r.0) == answer_vals(result@),
        r.1 == second_of(result@),
{
    let mut second = Second::Nothing;
    let values = match result {
        DatabaseResponse::Connect => alone(one("message", "Ok")),
        DatabaseResponse::CreateCollection => alone(one("message", "Ok")),
        DatabaseResponse::InsertOne(id) => alone(one("inserted_id", id.as_str())),
        DatabaseResponse::InsertMany(ids) => value_or_error(ids_value(ids)),
        DatabaseResponse::DeleteOne(n) => alone(one("deleted_count", *n)),
        DatabaseResponse::DeleteMany(n) => alone(one("deleted_count", *n)),
        DatabaseResponse::UpdateOne(u) => value_or_error(update_value(u)),
        DatabaseResponse::UpdateMany(u) => value_or_error(update_value(u)),
        DatabaseResponse::FindOne(None) => alone(LuaValue::Nil),
        DatabaseResponse::FindOne(Some(d)) => value_or_error(
            match document_to_table(d) {
                Ok(t) => Ok(LuaValue::Table(t)),
                Err(e) => Err(e),
            },
        ),
        DatabaseResponse::Find(docs) => value_or_error(docs_value(docs)),
        DatabaseResponse::FindBatch { docs, more } => {
            let all = docs_value(docs);
            if all.is_ok() {
                second = if *more {
                    Second::Handle
                } else {
                    Second::End
                };
            }
            value_or_error(all)
        },
        DatabaseResponse::ReplacOne(u) => alone(LuaValue::Table(counts(u))),
        DatabaseResponse::Count(n) => alone(one("count", *n)),
        DatabaseResponse::Exists(b) => alone(one("exists", *b)),
        DatabaseResponse::CreateIndex(name) => alone(one("name", name.as_str())),
        DatabaseResponse::Error(e) => alone(error_table(e.as_str())),
    };
    (values, second)
}

} // verus!
