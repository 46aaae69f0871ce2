//! The callbacks of the database module: their arguments and their results.
use vstd::prelude::*;
use vstd::string::*;
use vstd::utf8::*;

use crate::laux::{slot_kind, type_error_text, LuaArgs, LuaStack};
use crate::mongo::{
    make_request, request_of, whose, ActorId, DatabaseRequest, Limits, Target, Whose,
};
use crate::mongo_reply::{error_table, error_val};
use crate::value::{LuaValue, Val};
use crate::words::{read_usize, slot_usize};

verus! {

/// What a connection is opened with.
#[derive(Debug, PartialEq)]
pub struct ConnectArgs {
    pub database_url: String,
    pub name: String,
    pub queue_capacity: usize,
}

/// The text of an argument that must be valid UTF-8.
pub open spec fn text_arg(v: Option<Val>) -> Result<Seq<char>, Seq<char>> {
    match v {
        Some(Val::Str(b, _)) => if valid_utf8(b) {
            Ok(decode_utf8(b))
        } else {
            Err(type_error_text("UTF-8 string"@, slot_kind(v)))
        },
        _ => Err(type_error_text("UTF-8 string"@, slot_kind(v))),
    }
}

/// Reads a text argument.
fn read_text(lua: &LuaStack, index: i32, prefix: &str) -> (r: Result<String, String>)
    requires
        lua.wf(),
        index > 0,
    ensures
        match text_arg(lua.slot(index as int)) {
            Ok(s) => r matches Ok(got) && got@ == s,
            Err(e) => r matches Err(m) && m@ == prefix@ + e,
        },
{
    match lua.get::<String>(index) {
        Ok(s) => Ok(s),
        Err(e) => {
            let mut m = prefix.to_owned();
            m.append(e.to_string().as_str());
            Err(m)
        },
    }
}

/// Reads a text argument whose error stands for itself.
fn read_name(lua: &LuaStack, index: i32) -> (r: Result<String, String>)
    requires
        lua.wf(),
        index > 0,
    ensures
        match text_arg(lua.slot(index as int)) {
            Ok(s) => r matches Ok(got) && got@ == s,
            Err(e) => r matches Err(m) && m@ == e,
        },
{
    match lua.get::<String>(index) {
        Ok(s) => Ok(s),
        Err(e) => Err(e.to_string()),
    }
}

/// The queue length that a slot asks for, at least one.
pub open spec fn capacity(v: Option<Val>, limits: Limits) -> int {
    let n = slot_usize(v, limits.request_queue_capacity as int);
    if n == 0 {
        1
    } else {
        n
    }
}

/// Reads what a connection is opened with.
pub fn connect_args(lua: &LuaStack, limits: &Limits) -> (r: Result<ConnectArgs, String>)
    requires
        lua.wf(),
    ensures
        match text_arg(lua.slot(1)) {
            Err(e) => r matches Err(m) && m@ == "mongodb.connect: "@ + e,
            Ok(url) => match text_arg(lua.slot(2)) {
                Err(e) => r matches Err(m) && m@ == "mongodb.connect: "@ + e,
                Ok(name) => r matches Ok(c) && c.database_url@ == url && c.name@ == name
                    && c.queue_capacity == capacity(lua.slot(3), *limits),
            },
        },
{
    let mut args = LuaArgs::new(1);
    let database_url = read_text(lua, args.iter_arg(), "mongodb.connect: ")?;
    let name = read_text(lua, args.iter_arg(), "mongodb.connect: ")?;
    let asked = read_usize(lua, args.iter_arg(), limits.request_queue_capacity);
    let queue_capacity: usize = if asked == 0 {
        1
    } else {
        asked
    };
    Ok(ConnectArgs { database_url, name, queue_capacity })
}

/// What becomes of an operation: a request to hand over, or at once an answer.
#[derive(Debug)]
pub enum Prepared {
    Send(DatabaseRequest),
    Answer(LuaValue),
}

/// Reads an operation from the arguments behind the connection. What is wrong
/// with the names is an error; what is wrong with the operation is answered.
pub fn operators(lua: &LuaStack, owner: ActorId, session: i64, limits: &Limits) -> (r: Result<
    Prepared,
    String,
>)
    requires
        lua.wf(),
        lua.slot(1) matches Some(Val::User(p, _)) && p != 0,
    ensures
        match text_arg(lua.slot(2)) {
            Err(e) => r matches Err(m) && m@ == "mongodb.operators: "@ + e,
            Ok(op) => match text_arg(lua.slot(3)) {
                Err(e) => r matches Err(m) && m@ == e,
                Ok(db_name) => match text_arg(lua.slot(4)) {
                    Err(e) => r matches Err(m) && m@ == e,
                    Ok(collection_name) => {
                        let w = Whose { owner, session, db_name, collection_name };
                        match request_of(w, op, *lua, 5, *limits) {
                            Ok(req) => r matches Ok(Prepared::Send(got)) && got@ == req,
                            Err(e) => r matches Ok(Prepared::Answer(v)) && v@ == error_val(e),
                        }
                    },
                },
            },
        },
{
    let mut args = LuaArgs::new(2);
    let op_name = read_text(lua, args.iter_arg(), "mongodb.operators: ")?;
    let db_name = read_name(lua, args.iter_arg())?;
    let collection_name = read_name(lua, args.iter_arg())?;
    let target = Target { owner, session, db_name, collection_name };
    match make_request(target, op_name.as_str(), lua, args, limits) {
        Ok(request) => Ok(Prepared::Send(request)),
        Err(e) => Ok(Prepared::Answer(error_table(e.as_str()))),
    }
}

/// The result of handing a request over, and whether it now counts as pending: a
/// session to wait for, `true` for a close, or the report of a full or closed
/// queue.
pub fn operators_result(is_close: bool, session: i64, sent: Result<(), String>) -> (r: (
    LuaValue,
    bool,
))
    ensures
        r.1 == (sent is Ok && !is_close),
        r.0@ == match sent {
            Err(e) => error_val(e@),
            Ok(_) => if is_close {
                Val::Bool(true)
            } else {
                Val::Int(session)
            },
        },
{
    match sent {
        Err(e) => (error_table(e.as_str()), false),
        Ok(()) => {
            if is_close {
                (LuaValue::Boolean(true), false)
            } else {
                (LuaValue::Integer(session), true)
            }
        },
    }
}

/// The refusal that a request still queued at the close is answered with: to
/// whom, under which session and in which words.
pub fn closed_answer(request: &DatabaseRequest) -> (r: Option<(ActorId, i64, String)>)
    requires
        whose(request@) matches Some(w) ==> w.1 > i64::MIN,
    ensures
        match whose(request@) {
            None => r is None,
            Some(w) => r matches Some((o, s, m)) && o == w.0 && s == -w.1 && m@
                == "mongodb connection closed"@,
        },
{
    match request.owner_session() {
        None => None,
        Some((owner, session)) => Some((owner, -session, "mongodb connection closed".to_owned())),
    }
}

/// The handle by which the next batch of a query is asked for, once.
#[derive(Debug, PartialEq, Eq, Structural)]
pub struct CursorHandle {
    pub open: bool,
}

impl CursorHandle {
    /// A handle that can be used.
    pub fn new() -> (r: CursorHandle)
        ensures
            r.open,
    {
        CursorHandle { open: true }
    }

    /// Uses the handle up; whether it could be used.
    pub fn take(&mut self) -> (r: bool)
        ensures
            r == old(self).open,
            !final(self).open,
    {
        let was = self.open;
        self.open = false;
        was
    }
}

/// The result of asking for the next batch: the session to wait for. `taken`
/// says whether the handle could be used, `delivered` whether the other side is
/// still there.
pub fn cursor_next(taken: bool, delivered: bool, session: i64) -> (r: Result<i64, &'static str>)
    ensures
        if !taken {
            r matches Err(m) && m@ == "cursor: already consumed or closed"@
        } else if !delivered {
            r matches Err(m) && m@ == "cursor: stream handler is gone"@
        } else {
            r == Ok::<i64, &'static str>(session)
        },
{
    if !taken {
        Err("cursor: already consumed or closed")
    } else if !delivered {
        Err("cursor: stream handler is gone")
    } else {
        Ok(session)
    }
}

} // verus!
