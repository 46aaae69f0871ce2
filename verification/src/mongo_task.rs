//! The task that serves one database connection, as a state machine.
//!
//! The host performs what a step asks for (receive a request, run it, fetch a
//! document, wait) and reports what happened as the next event.
use vstd::prelude::*;
use vstd::string::*;
use vstd::utf8::*;

use crate::bson::Document;
use crate::mongo::{view_docs, whose, ActorId, DatabaseRequest, Doc, Request};
use crate::mongo_reply::{DatabaseResponse, Response};
use crate::text::{decimal, push_u64};

verus! {

/// What kind of failure the driver reports.
#[derive(Clone, Copy, Debug, PartialEq, Eq, Structural)]
pub enum FailureKind {
    Io,
    ServerSelection,
    ConnectionPoolCleared,
    DnsResolve,
    Other,
}

/// A failed operation.
#[derive(Debug, PartialEq)]
pub struct Failure {
    pub kind: FailureKind,
    /// Whether the driver labels it as a write that may be repeated.
    pub retryable_write: bool,
    pub text: String,
}

/// Whether a failure of a kind is one of the network and may pass.
pub open spec fn transient(kind: FailureKind, retryable_write: bool) -> bool {
    !(kind is Other) || retryable_write
}

/// Whether a failure is one of the network and may pass.
pub fn is_transient_network_error(err: &Failure) -> (r: bool)
    ensures
        r == transient(err.kind, err.retryable_write),
{
    match err.kind {
        FailureKind::Io
        | FailureKind::ServerSelection
        | FailureKind::ConnectionPoolCleared
        | FailureKind::DnsResolve => true,
        FailureKind::Other => err.retryable_write,
    }
}

/// Takes in one more document of a query's result.
pub fn collect_doc_capped(docs: &mut Vec<Document>, doc: Document, limit: usize) -> (r: Result<
    (),
    String,
>)
    ensures
        if old(docs)@.len() >= limit {
            &&& r matches Err(m) && m@ == "find returned more than "@ + decimal(limit as int)
                + " documents; use find_stream for large result sets"@
            &&& final(docs)@ == old(docs)@
        } else {
            r is Ok && final(docs)@ == old(docs)@.push(doc)
        },
{
    if docs.len() >= limit {
        let mut m = "find returned more than ".to_owned();
        push_u64(&mut m, limit as u64);
        m.append(" documents; use find_stream for large result sets");
        return Err(m);
    }
    docs.push(doc);
    Ok(())
}

/// A query whose result goes out in batches: to whom the next batch goes, and
/// what is in it.
#[derive(Debug)]
pub struct Stream {
    pub owner: ActorId,
    pub session: i64,
    pub batch: Vec<Document>,
    pub batch_size: usize,
}

/// What the task is doing.
#[derive(Debug)]
pub enum HandlerState {
    /// Waiting for a request.
    Waiting,
    /// Running a request; whether a failure was reported already.
    Executing { request: DatabaseRequest, reported: bool },
    /// Filling a batch.
    Streaming(Stream),
    /// Waiting to be asked for the next batch.
    Parked(Stream),
    Stopped,
}

/// What happened.
#[derive(Debug)]
pub enum Event {
    Received(DatabaseRequest),
    /// No request will come any more.
    QueueClosed,
    /// The request was run.
    Finished(Result<DatabaseResponse, Failure>),
    /// The pause is over.
    Waited,
    /// The query is under way.
    Opened,
    OpenFailed(String),
    /// A document came, or the end.
    Fetched(Option<Document>),
    FetchFailed(String),
    /// The next batch is asked for.
    Next(ActorId, i64),
    /// The next batch will not be asked for.
    Abandoned,
}

/// What goes out to the caller.
#[derive(Debug)]
pub enum Outgoing {
    Nothing,
    Value { owner: ActorId, session: i64, response: DatabaseResponse },
    Error { owner: ActorId, session: i64, text: String },
    /// A failure that nobody waits for.
    Dropped(String),
}

/// What the host does next.
#[derive(Clone, Copy, Debug, PartialEq, Eq, Structural)]
pub enum Next {
    Receive,
    Execute,
    /// Wait a second; whether to report the failure.
    Pause { report: bool },
    OpenStream,
    Fetch,
    AwaitSignal,
    /// Refuse the requests still in the queue, and end.
    Drain,
    End,
}

/// A step: what goes out, whether a request is done with, and what is next.
#[derive(Debug)]
pub struct Step {
    pub out: Outgoing,
    pub count_down: bool,
    pub next: Next,
}

/// Model of [`Stream`].
pub struct Flow {
    pub owner: ActorId,
    pub session: i64,
    pub batch: Seq<Doc>,
    pub batch_size: usize,
}

/// Model of [`HandlerState`].
pub enum Phase {
    Waiting,
    Executing(Request, bool),
    Streaming(Flow),
    Parked(Flow),
    Stopped,
}

/// Model of [`Event`].
pub enum Happening {
    Received(Request),
    QueueClosed,
    Finished(Response),
    /// The request failed: whether the failure may pass, and its text.
    Failed(bool, Seq<char>),
    Waited,
    Opened,
    OpenFailed(Seq<char>),
    Fetched(Doc),
    Exhausted,
    FetchFailed(Seq<char>),
    Next(ActorId, i64),
    Abandoned,
}

/// Model of [`Outgoing`].
pub enum Out {
    Nothing,
    Value(ActorId, i64, Response),
    Error(ActorId, i64, Seq<char>),
    Dropped(Seq<char>),
}

/// Model of [`Step`].
pub struct Move {
    pub out: Out,
    pub count_down: bool,
    pub next: Next,
}

impl View for Stream {
    type V = Flow;

    open spec fn view(&self) -> Flow {
        Flow {
            owner: self.owner,
            session: self.session,
            batch: view_docs(self.batch),
            batch_size: self.batch_size,
        }
    }
}

impl View for HandlerState {
    type V = Phase;

    open spec fn view(&self) -> Phase {
        match *self {
            HandlerState::Waiting => Phase::Waiting,
            HandlerState::Executing { request, reported } => Phase::Executing(request@, reported),
            HandlerState::Streaming(s) => Phase::Streaming(s@),
            HandlerState::Parked(s) => Phase::Parked(s@),
            HandlerState::Stopped => Phase::Stopped,
        }
    }
}

impl View for Event {
    type V = Happening;

    open spec fn view(&self) -> Happening {
        match *self {
            Event::Received(r) => Happening::Received(r@),
            Event::QueueClosed => Happening::QueueClosed,
            Event::Finished(Ok(r)) => Happening::Finished(r@),
            Event::Finished(Err(f)) => Happening::Failed(
                transient(f.kind, f.retryable_write),
                f.text@,
            ),
            Event::Waited => Happening::Waited,
            Event::Opened => Happening::Opened,
            Event::OpenFailed(t) => Happening::OpenFailed(t@),
            Event::Fetched(Some(d)) => Happening::Fetched(d@),
            Event::Fetched(None) => Happening::Exhausted,
            Event::FetchFailed(t) => Happening::FetchFailed(t@),
            Event::Next(o, s) => Happening::Next(o, s),
            Event::Abandoned => Happening::Abandoned,
        }
    }
}

impl View for Outgoing {
    type V = Out;

    open spec fn view(&self) -> Out {
        match *self {
            Outgoing::Nothing => Out::Nothing,
            Outgoing::Value { owner, session, response } => Out::Value(owner, session, response@),
            Outgoing::Error { owner, session, text } => Out::Error(owner, session, text@),
            Outgoing::Dropped(text) => Out::Dropped(text@),
        }
    }
}

impl View for Step {
    type V = Move;

    open spec fn view(&self) -> Move {
        Move { out: self.out@, count_down: self.count_down, next: self.next }
    }
}

/// A move that sends nothing.
pub open spec fn silent(next: Next) -> Move {
    Move { out: Out::Nothing, count_down: false, next }
}

/// The move that is done with a request.
pub open spec fn done(out: Out) -> Move {
    Move { out, count_down: true, next: Next::Receive }
}

/// What goes out when a request succeeded: nothing where nobody waits.
pub open spec fn delivered(w: (ActorId, i64), r: Response) -> Out {
    if w.1 != 0 {
        Out::Value(w.0, w.1, r)
    } else {
        Out::Nothing
    }
}

/// What goes out when a request failed for good.
pub open spec fn refused(w: (ActorId, i64), text: Seq<char>) -> Out {
    if w.1 != 0 {
        Out::Value(w.0, w.1, Response::Error(text))
    } else {
        Out::Dropped(text)
    }
}

/// Goes on with a batch: a full one goes out, others are filled.
pub open spec fn flowing(f: Flow) -> (Phase, Move) {
    if f.batch.len() < f.batch_size {
        (Phase::Streaming(f), silent(Next::Fetch))
    } else {
        (
            Phase::Parked(Flow { batch: Seq::empty(), ..f }),
            Move {
                out: Out::Value(f.owner, f.session, Response::FindBatch(f.batch, true)),
                count_down: false,
                next: Next::AwaitSignal,
            },
        )
    }
}

/// The task after an event, and what it asks the host to do. An event that does
/// not belong to what the task is doing ends it.
pub open spec fn after(p: Phase, e: Happening) -> (Phase, Move) {
    match (p, e) {
        (Phase::Waiting, Happening::Received(r)) => match r {
            Request::Close => (Phase::Stopped, silent(Next::Drain)),
            Request::FindStream(_, _, _, _) => (
                Phase::Executing(r, false),
                silent(Next::OpenStream),
            ),
            _ => (Phase::Executing(r, false), silent(Next::Execute)),
        },
        (Phase::Executing(r, reported), Happening::Finished(res)) => match whose(r) {
            Some(w) => (Phase::Waiting, done(delivered(w, res))),
            None => (Phase::Stopped, silent(Next::End)),
        },
        (Phase::Executing(r, reported), Happening::Failed(passing, text)) => match whose(r) {
            Some(w) => if w.1 == 0 && passing {
                (Phase::Executing(r, true), silent(Next::Pause { report: !reported }))
            } else {
                (Phase::Waiting, done(refused(w, text)))
            },
            None => (Phase::Stopped, silent(Next::End)),
        },
        (Phase::Executing(r, reported), Happening::Waited) => (
            Phase::Executing(r, reported),
            silent(Next::Execute),
        ),
        (
            Phase::Executing(Request::FindStream(w, _, _, n), _),
            Happening::Opened,
        ) => flowing(
            Flow { owner: w.owner, session: w.session, batch: Seq::empty(), batch_size: n },
        ),
        (Phase::Executing(Request::FindStream(w, _, _, _), _), Happening::OpenFailed(text)) => (
            Phase::Waiting,
            done(Out::Error(w.owner, (-w.session) as i64, text)),
        ),
        (Phase::Streaming(f), Happening::Fetched(d)) => flowing(
            Flow { batch: f.batch.push(d), ..f },
        ),
        (Phase::Streaming(f), Happening::Exhausted) => (
            Phase::Waiting,
            done(Out::Value(f.owner, f.session, Response::FindBatch(f.batch, false))),
        ),
        (Phase::Streaming(f), Happening::FetchFailed(text)) => (
            Phase::Waiting,
            done(Out::Error(f.owner, (-f.session) as i64, text)),
        ),
        (Phase::Parked(f), Happening::Next(owner, session)) => flowing(
            Flow { owner, session, ..f },
        ),
        (Phase::Parked(f), Happening::Abandoned) => (Phase::Waiting, done(Out::Nothing)),
        _ => (Phase::Stopped, silent(Next::End)),
    }
}

/// Sessions can be negated.
pub open spec fn phase_ok(p: Phase) -> bool {
    match p {
        Phase::Executing(r, _) => whose(r) matches Some(w) ==> w.1 > i64::MIN,
        Phase::Streaming(f) => f.session > i64::MIN && f.batch.len() < f.batch_size,
        Phase::Parked(f) => f.session > i64::MIN && f.batch.len() == 0,
        _ => true,
    }
}

/// Sessions can be negated.
pub open spec fn event_ok(e: Happening) -> bool {
    match e {
        Happening::Received(r) => whose(r) matches Some(w) ==> w.1 > i64::MIN,
        Happening::Next(_, s) => s > i64::MIN,
        _ => true,
    }
}

fn quiet(next: Next) -> (r: Step)
    ensures
        r@ == silent(next),
{
    Step { out: Outgoing::Nothing, count_down: false, next }
}

fn finish(out: Outgoing) -> (r: Step)
    ensures
        r@ == done(out@),
{
    Step { out, count_down: true, next: Next::Receive }
}

/// Goes on with a batch.
fn flow(s: Stream) -> (r: (HandlerState, Step))
    requires
        s.session > i64::MIN,
        s.batch@.len() <= s.batch_size,
    ensures
        (r.0@, r.1@) == flowing(s@),
        phase_ok(r.0@),
{
    if s.batch.len() < s.batch_size {
        (HandlerState::Streaming(s), quiet(Next::Fetch))
    } else {
        let Stream { owner, session, batch, batch_size } = s;
        let empty: Vec<Document> = Vec::new();
        assert(view_docs(empty) =~= Seq::empty());
        let parked = Stream { owner, session, batch: empty, batch_size };
        let out = Outgoing::Value {
            owner,
            session,
            response: DatabaseResponse::FindBatch { docs: batch, more: true },
        };
        (
            HandlerState::Parked(parked),
            Step { out, count_down: false, next: Next::AwaitSignal },
        )
    }
}

/// What a finished request is answered with.
fn send_result(request: &DatabaseRequest, res: Result<DatabaseResponse, String>) -> (r: Outgoing)
    requires
        whose(request@) is Some,
    ensures
        r@ == match res {
            Ok(x) => delivered(whose(request@)->0, x@),
            Err(e) => refused(whose(request@)->0, e@),
        },
{
    match request.owner_session() {
        Some((owner, session)) => match res {
            Ok(response) => {
                if session != 0 {
                    Outgoing::Value { owner, session, response }
                } else {
                    Outgoing::Nothing
                }
            },
            Err(text) => {
                if session != 0 {
                    Outgoing::Value { owner, session, response: DatabaseResponse::Error(text) }
                } else {
                    Outgoing::Dropped(text)
                }
            },
        },
        None => Outgoing::Nothing,
    }
}

/// Takes an event in: the task's next state, and what the host is to do.
pub fn database_handler(state: HandlerState, event: Event) -> (r: (HandlerState, Step))
    requires
        phase_ok(state@),
        event_ok(event@),
    ensures
        (r.0@, r.1@) == after(state@, event@),
        phase_ok(r.0@),
{
    let end = (HandlerState::Stopped, quiet(Next::End));
    match state {
        HandlerState::Waiting => match event {
            Event::Received(request) => {
                let next = match &request {
                    DatabaseRequest::Close => Next::Drain,
                    DatabaseRequest::FindStream(_, _, _, _) => Next::OpenStream,
                    _ => Next::Execute,
                };
                if next == Next::Drain {
                    (HandlerState::Stopped, quiet(Next::Drain))
                } else {
                    (HandlerState::Executing { request, reported: false }, quiet(next))
                }
            },
            _ => end,
        },
        HandlerState::Executing { request, reported } => {
            let to = request.owner_session();
            match event {
                Event::Finished(Ok(res)) => match to {
                    Some(_) => (HandlerState::Waiting, finish(send_result(&request, Ok(res)))),
                    None => end,
                },
                Event::Finished(Err(err)) => match to {
                    Some((_owner, session)) => {
                        if session == 0 && is_transient_network_error(&err) {
                            (
                                HandlerState::Executing { request, reported: true },
                                quiet(Next::Pause { report: !reported }),
                            )
                        } else {
                            (
                                HandlerState::Waiting,
                                finish(send_result(&request, Err(err.text))),
                            )
                        }
                    },
                    None => end,
                },
                Event::Waited => (
                    HandlerState::Executing { request, reported },
                    quiet(Next::Execute),
                ),
                Event::Opened => match request {
                    DatabaseRequest::FindStream(t, _, _, batch_size) => {
                        let batch: Vec<Document> = Vec::new();
                        assert(view_docs(batch) =~= Seq::empty());
                        flow(Stream { owner: t.owner, session: t.session, batch, batch_size })
                    },
                    _ => end,
                },
                Event::OpenFailed(text) => match request {
                    DatabaseRequest::FindStream(t, _, _, _) => (
                        HandlerState::Waiting,
                        finish(
                            Outgoing::Error { owner: t.owner, session: -t.session, text },
                        ),
                    ),
                    _ => end,
                },
                _ => end,
            }
        },
        HandlerState::Streaming(s) => match event {
            Event::Fetched(Some(doc)) => {
                let Stream { owner, session, mut batch, batch_size } = s;
                let ghost before = batch;
                batch.push(doc);
                assert(view_docs(batch) =~= view_docs(before).push(doc@));
                flow(Stream { owner, session, batch, batch_size })
            },
            Event::Fetched(None) => (
                HandlerState::Waiting,
                finish(
                    Outgoing::Value {
                        owner: s.owner,
                        session: s.session,
                        response: DatabaseResponse::FindBatch { docs: s.batch, more: false },
                    },
                ),
            ),
            Event::FetchFailed(text) => (
                HandlerState::Waiting,
                finish(Outgoing::Error { owner: s.owner, session: -s.session, text }),
            ),
            _ => end,
        },
        HandlerState::Parked(s) => match event {
            Event::Next(owner, session) => {
                flow(Stream { owner, session, batch: s.batch, batch_size: s.batch_size })
            },
            Event::Abandoned => (HandlerState::Waiting, finish(Outgoing::Nothing)),
            _ => end,
        },
        HandlerState::Stopped => end,
    }
}

} // verus!
