//! What holds of whole runs of a connection's task.
use vstd::prelude::*;

use crate::mongo::{whose, Doc, Request};
use crate::mongo_reply::Response;
use crate::mongo_task::{after, event_ok, phase_ok, Flow, Happening, Move, Next, Out, Phase};

verus! {

/// The state after a sequence of events.
pub open spec fn reached(p: Phase, es: Seq<Happening>) -> Phase
    decreases es.len(),
{
    if es.len() == 0 {
        p
    } else {
        reached(after(p, es[0]).0, es.skip(1))
    }
}

/// The moves that a sequence of events brings about.
pub open spec fn moves(p: Phase, es: Seq<Happening>) -> Seq<Move>
    decreases es.len(),
{
    if es.len() == 0 {
        Seq::empty()
    } else {
        seq![after(p, es[0]).1] + moves(after(p, es[0]).0, es.skip(1))
    }
}

/// How many requests are being served.
pub open spec fn busy(p: Phase) -> nat {
    match p {
        Phase::Executing(_, _) => 1,
        Phase::Streaming(_) => 1,
        Phase::Parked(_) => 1,
        _ => 0,
    }
}

/// How many requests came in.
pub open spec fn received(es: Seq<Happening>) -> nat
    decreases es.len(),
{
    if es.len() == 0 {
        0
    } else {
        received(es.skip(1)) + if es[0] is Received {
            1nat
        } else {
            0
        }
    }
}

/// How many requests were counted as done with.
pub open spec fn counted(ms: Seq<Move>) -> nat
    decreases ms.len(),
{
    if ms.len() == 0 {
        0
    } else {
        counted(ms.skip(1)) + if ms[0].count_down {
            1nat
        } else {
            0
        }
    }
}

proof fn lemma_stopped(es: Seq<Happening>)
    ensures
        reached(Phase::Stopped, es) is Stopped,
    decreases es.len(),
{
    if es.len() > 0 {
        lemma_stopped(es.skip(1));
    }
}

/// Every request is counted as done with exactly once, whatever happens to it:
/// until the task ends, those counted and the one being served add up to those
/// received.
pub proof fn law_requests_are_counted_once(p: Phase, es: Seq<Happening>)
    requires
        !(reached(p, es) is Stopped),
    ensures
        busy(p) + received(es) == counted(moves(p, es)) + busy(reached(p, es)),
    decreases es.len(),
{
    if es.len() > 0 {
        let (q, m) = after(p, es[0]);
        if q is Stopped {
            lemma_stopped(es.skip(1));
        }
        law_requests_are_counted_once(q, es.skip(1));
        assert(moves(p, es).skip(1) =~= moves(q, es.skip(1)));
    }
}

/// A request whose caller waits is tried once and answered once, to that caller
/// and with its outcome; the task then turns to the next request.
pub proof fn law_awaited_requests_are_answered(r: Request, reported: bool, e: Happening)
    requires
        whose(r) is Some,
        (whose(r)->0).1 != 0,
        e is Finished || e is Failed,
    ensures
        ({
            let (owner, session) = whose(r)->0;
            let answer = match e {
                Happening::Finished(res) => res,
                Happening::Failed(_, text) => Response::Error(text),
                _ => arbitrary(),
            };
            after(Phase::Executing(r, reported), e) == (
                Phase::Waiting,
                Move {
                    out: Out::Value(owner, session, answer),
                    count_down: true,
                    next: Next::Receive,
                },
            )
        }),
{
}

/// `n` failures that may pass, each followed by the pause.
pub open spec fn outages(texts: Seq<Seq<char>>) -> Seq<Happening>
    decreases texts.len(),
{
    if texts.len() == 0 {
        Seq::empty()
    } else {
        seq![Happening::Failed(true, texts[0]), Happening::Waited] + outages(texts.skip(1))
    }
}

/// A request that nobody waits for is kept through any number of failures of the
/// network, without a word to anyone, and is then still to be run.
pub proof fn law_unawaited_requests_outlast_outages(
    r: Request,
    reported: bool,
    texts: Seq<Seq<char>>,
)
    requires
        whose(r) is Some,
        (whose(r)->0).1 == 0,
    ensures
        reached(Phase::Executing(r, reported), outages(texts)) == Phase::Executing(
            r,
            reported || texts.len() > 0,
        ),
        forall|i: int|
            0 <= i < moves(Phase::Executing(r, reported), outages(texts)).len() ==> {
                let m = #[trigger] moves(Phase::Executing(r, reported), outages(texts))[i];
                m.out is Nothing && !m.count_down
            },
    decreases texts.len(),
{
    if texts.len() > 0 {
        let p = Phase::Executing(r, reported);
        let es = outages(texts);
        let q = Phase::Executing(r, true);
        let rest = outages(texts.skip(1));
        assert(es[0] == Happening::Failed(true, texts[0]));
        let tail = es.skip(1);
        assert(tail[0] == Happening::Waited);
        assert(tail.skip(1) =~= rest);
        law_unawaited_requests_outlast_outages(r, true, texts.skip(1));
        assert(reached(p, es) == reached(q, tail));
        assert(reached(q, tail) == reached(q, rest));
        let ms = moves(p, es);
        let m1 = moves(q, tail);
        let m2 = moves(q, rest);
        assert(ms == seq![after(p, es[0]).1] + m1);
        assert(m1 == seq![after(q, tail[0]).1] + m2);
        assert forall|i: int| 0 <= i < ms.len() implies (#[trigger] ms[i]).out is Nothing
            && !ms[i].count_down by {
            if i >= 2 {
                assert(ms[i] == m2[i - 2]);
            }
        }
    }
}

/// Events that carry a query on without failing: documents while a batch is
/// filled, requests for the next batch in between, the end last.
pub open spec fn carries_on(p: Phase, es: Seq<Happening>) -> bool
    decreases es.len(),
{
    if es.len() == 0 {
        true
    } else {
        match (p, es[0]) {
            (Phase::Streaming(_), Happening::Fetched(_)) => carries_on(
                after(p, es[0]).0,
                es.skip(1),
            ),
            (Phase::Streaming(_), Happening::Exhausted) => es.len() == 1,
            (Phase::Parked(_), Happening::Next(_, _)) => carries_on(
                after(p, es[0]).0,
                es.skip(1),
            ),
            _ => false,
        }
    }
}

/// The documents that came.
pub open spec fn fetched(es: Seq<Happening>) -> Seq<Doc>
    decreases es.len(),
{
    if es.len() == 0 {
        Seq::empty()
    } else {
        (match es[0] {
            Happening::Fetched(d) => seq![d],
            _ => Seq::empty(),
        }) + fetched(es.skip(1))
    }
}

/// The documents that went out.
pub open spec fn sent(ms: Seq<Move>) -> Seq<Doc>
    decreases ms.len(),
{
    if ms.len() == 0 {
        Seq::empty()
    } else {
        (match ms[0].out {
            Out::Value(_, _, Response::FindBatch(ds, _)) => ds,
            _ => Seq::empty(),
        }) + sent(ms.skip(1))
    }
}

/// The documents waiting to go out.
pub open spec fn pending(p: Phase) -> Seq<Doc> {
    match p {
        Phase::Streaming(f) => f.batch,
        _ => Seq::empty(),
    }
}

/// A streamed query loses nothing, repeats nothing and keeps the order: what
/// went out and what waits to go out is what came.
pub proof fn law_streams_are_complete(p: Phase, es: Seq<Happening>)
    requires
        phase_ok(p),
        carries_on(p, es),
        forall|i: int| 0 <= i < es.len() ==> event_ok(#[trigger] es[i]),
    ensures
        pending(p) + fetched(es) == sent(moves(p, es)) + pending(reached(p, es)),
    decreases es.len(),
{
    if es.len() == 0 {
        assert(pending(p) + fetched(es) =~= sent(moves(p, es)) + pending(p));
    } else {
        let (q, m) = after(p, es[0]);
        let rest = es.skip(1);
        assert(moves(p, es).skip(1) =~= moves(q, rest));
        assert(event_ok(es[0]));
        assert forall|i: int| 0 <= i < rest.len() implies event_ok(#[trigger] rest[i]) by {
            assert(rest[i] == es[i + 1]);
        }
        if es[0] is Exhausted {
            assert(rest =~= Seq::empty());
        }
        law_streams_are_complete(q, rest);
        let out: Seq<Doc> = match m.out {
            Out::Value(_, _, Response::FindBatch(ds, _)) => ds,
            _ => Seq::empty(),
        };
        let new: Seq<Doc> = match es[0] {
            Happening::Fetched(d) => seq![d],
            _ => Seq::empty(),
        };
        assert(pending(p) + new =~= out + pending(q));
        assert(pending(p) + fetched(es) =~= (pending(p) + new) + fetched(rest));
        assert((out + pending(q)) + fetched(rest) =~= out + (pending(q) + fetched(rest)));
        assert(sent(moves(p, es)) + pending(reached(p, es)) =~= out + (sent(moves(q, rest))
            + pending(reached(q, rest))));
    }
}

/// A batch never exceeds its size, and further batches are announced exactly
/// after a full one.
pub proof fn law_batches_are_bounded(f: Flow, e: Happening)
    requires
        phase_ok(Phase::Streaming(f)),
        event_ok(e),
    ensures
        after(Phase::Streaming(f), e).1.out matches Out::Value(
            owner,
            session,
            Response::FindBatch(ds, more),
        ) ==> {
            &&& ds.len() <= f.batch_size
            &&& more <==> ds.len() == f.batch_size
            &&& owner == f.owner && session == f.session
        },
{
}

} // verus!
