//! The ingest actor: a state machine that requests missing operations from a driver
//! (a peer session or the cloud bridge) and applies the batches it is handed.
use vstd::prelude::*;
use crate::assoc::{map_of, keys_distinct, lemma_map_of};
use crate::log::{eligible, has_op, lemma_eligible_all, lemma_eligible_concat, lemma_eligible_members, lemma_eligible_none, lemma_eligible_shrinks, lemma_eligible_twice, query_spec};
use crate::manager::{Manager, ingested};
use crate::op::{CRDTOperation, ops_view};
use crate::watermark::{Watermark, advanced, covered};
use crate::ingest_spec::{all_covered, fresh_and_ordered, ingest_spec, lemma_ingest_append, lemma_ingest_eligible, lemma_ingest_replays, lemma_ingest_watermark};
use crate::table::{TableState, replay};

verus! {

/// How many operations the cloud bridge asks for at once.
pub const OPS_PER_REQUEST: usize = 1000;

/// A batch of operations handed to the actor.
#[derive(Clone, Debug, PartialEq, Eq)]
pub struct MessagesEvent {
    pub instance_id: u128,
    pub messages: Vec<CRDTOperation>,
    pub has_more: bool,
}

/// What a driver hands to the actor.
#[derive(Clone, Debug, PartialEq, Eq)]
pub enum Event {
    /// New operations may be available: start a cycle.
    Notification,
    /// The answer to the last request.
    Messages(MessagesEvent),
}

/// What the actor asks of its driver.
#[derive(Clone, Debug, PartialEq, Eq)]
pub enum Request {
    /// Send the operations that these per-instance timestamps do not cover.
    Messages { instance_id: u128, timestamps: Vec<(u128, u64)> },
    /// A batch was applied.
    Ingested,
    /// The cycle is over: nothing more was announced.
    FinishedIngesting,
}

/// A batch arrived while no request was outstanding.
#[derive(Debug, Clone, Copy, PartialEq, Eq, Structural)]
pub enum ProtocolError {
    NoOutstandingRequest,
}

/// Where the actor stands in a cycle. A batch is applied within one call of
/// `Actor::handle`, so applying is no state of its own.
#[derive(Debug, Clone, Copy, PartialEq, Eq, Structural)]
pub enum IngestState {
    /// Waiting for a notification.
    Idle,
    /// A request for operations is outstanding.
    RequestingMessages,
}

/// Exactly one request, for the operations that `wm` does not cover.
pub open spec fn asks_for(reqs: Seq<Request>, instance: u128, wm: Map<u128, u64>) -> bool {
    &&& reqs.len() == 1
    &&& match reqs[0] {
        Request::Messages { instance_id, timestamps } => instance_id == instance && keys_distinct(timestamps@)
            && map_of(timestamps@) == wm,
        _ => false,
    }
}

/// A copy of the watermark's entries.
fn watermark_entries(wm: &Watermark) -> (r: Vec<(u128, u64)>)
    requires
        wm.wf(),
    ensures
        keys_distinct(r@),
        map_of(r@) == wm@,
{
    let e = wm.entries();
    let mut r: Vec<(u128, u64)> = Vec::new();
    let mut i: usize = 0;
    while i < e.len()
        invariant
            i <= e@.len(),
            r@ == e@.take(i as int),
        decreases e.len() - i,
    {
        r.push(e[i]);
        assert(r@ =~= e@.take(i + 1));
        i = i + 1;
    }
    assert(r@ =~= e@);
    r
}

/// The ingest actor of one manager.
pub struct Actor {
    state: IngestState,
}

impl Actor {
    pub closed spec fn state_spec(&self) -> IngestState {
        self.state
    }

    /// An actor waiting for a notification.
    pub fn new() -> (r: Actor)
        ensures
            r.state_spec() == IngestState::Idle,
    {
        Actor { state: IngestState::Idle }
    }

    pub fn state(&self) -> (r: IngestState)
        ensures
            r == self.state_spec(),
    {
        self.state
    }

    /// Handles one event. A notification, in any state, starts a cycle: the actor asks
    /// for what the manager's watermark does not cover. A batch, while a request is
    /// outstanding, is ingested; if more was announced the actor asks again with the
    /// raised watermark, else it reports the batch ingested and the cycle finished,
    /// and goes idle. A batch with no request outstanding is refused and changes
    /// nothing.
    pub fn handle(&mut self, mgr: &mut Manager, event: Event) -> (r: Result<Vec<Request>, ProtocolError>)
        requires
            old(mgr).wf(),
        ensures
            final(mgr).wf(),
            match event {
                Event::Notification => {
                    &&& *final(mgr) == *old(mgr)
                    &&& final(self).state_spec() == IngestState::RequestingMessages
                    &&& (r matches Ok(reqs) && asks_for(reqs@, old(mgr).instance_spec(), old(mgr).watermark_view()))
                },
                Event::Messages(ev) => if old(self).state_spec() == IngestState::Idle {
                    &&& r == Err::<Vec<Request>, ProtocolError>(ProtocolError::NoOutstandingRequest)
                    &&& *final(mgr) == *old(mgr)
                    &&& final(self).state_spec() == IngestState::Idle
                } else {
                    &&& ingested(*old(mgr), *final(mgr), ev.messages@)
                    &&& if ev.has_more {
                        &&& final(self).state_spec() == IngestState::RequestingMessages
                        &&& (r matches Ok(reqs) && asks_for(reqs@, old(mgr).instance_spec(), final(mgr).watermark_view()))
                    } else {
                        &&& final(self).state_spec() == IngestState::Idle
                        &&& (r matches Ok(reqs) && reqs@.len() == 2 && reqs@[0] is Ingested && reqs@[1] is FinishedIngesting)
                    }
                },
            },
    {
        match event {
            Event::Notification => {
                self.state = IngestState::RequestingMessages;
                let timestamps = watermark_entries(mgr.watermark());
                let mut reqs: Vec<Request> = Vec::new();
                reqs.push(Request::Messages { instance_id: mgr.instance(), timestamps });
                Ok(reqs)
            },
            Event::Messages(ev) => {
                if self.state == IngestState::Idle {
                    return Err(ProtocolError::NoOutstandingRequest);
                }
                mgr.ingest_batch(&ev.messages);
                let mut reqs: Vec<Request> = Vec::new();
                if ev.has_more {
                    let timestamps = watermark_entries(mgr.watermark());
                    reqs.push(Request::Messages { instance_id: mgr.instance(), timestamps });
                } else {
                    self.state = IngestState::Idle;
                    reqs.push(Request::Ingested);
                    reqs.push(Request::FinishedIngesting);
                }
                Ok(reqs)
            },
        }
    }
}

/// The watermark that a list of per-instance timestamps denotes: for each instance,
/// the highest timestamp listed for it.
pub open spec fn watermark_of(entries: Seq<(u128, u64)>) -> Map<u128, u64>
    decreases entries.len(),
{
    if entries.len() == 0 {
        Map::empty()
    } else {
        advanced(watermark_of(entries.drop_last()), entries.last().0, entries.last().1)
    }
}

/// With one entry per instance, the list's watermark is the map it denotes.
pub proof fn lemma_watermark_of_distinct(entries: Seq<(u128, u64)>)
    requires
        keys_distinct(entries),
    ensures
        watermark_of(entries) == map_of(entries),
    decreases entries.len(),
{
    if entries.len() > 0 {
        let p = entries.drop_last();
        assert(keys_distinct(p));
        lemma_watermark_of_distinct(p);
        lemma_map_of(p);
        assert forall|j: int| 0 <= j < p.len() implies p[j].0 != entries.last().0 by {
            assert(p[j] == entries[j]);
        }
    }
}

/// The watermark of a list of per-instance timestamps.
pub fn watermark_from_entries(entries: &Vec<(u128, u64)>) -> (r: Watermark)
    ensures
        r.wf(),
        r@ == watermark_of(entries@),
{
    let mut wm = Watermark::new();
    let mut i: usize = 0;
    while i < entries.len()
        invariant
            i <= entries@.len(),
            wm.wf(),
            wm@ == watermark_of(entries@.take(i as int)),
        decreases entries.len() - i,
    {
        assert(entries@.take(i + 1).drop_last() == entries@.take(i as int));
        wm.advance(entries[i].0, entries[i].1);
        i = i + 1;
    }
    assert(entries@.take(entries@.len() as int) == entries@);
    wm
}

/// What the cloud bridge does with a request of the actor.
#[derive(Clone, Debug, PartialEq, Eq)]
pub enum BridgeAction {
    /// Hand this event to the actor.
    Respond(Event),
    /// Nothing to do for this request.
    Skip,
    /// The cycle is over: wait to be woken before the next one.
    Finish,
}

/// The cloud bridge's answer to a request: a request for operations is answered from
/// the cloud-mirrored log, at most `OPS_PER_REQUEST` of them, announcing more when the
/// batch is full; the end of a cycle finishes it; anything else is skipped.
pub fn bridge_step(mgr: &Manager, req: &Request) -> (r: BridgeAction)
    requires
        mgr.wf(),
    ensures
        match req {
            Request::Messages { timestamps, .. } => (r matches BridgeAction::Respond(Event::Messages(ev))
                && ev.instance_id == mgr.instance_spec()
                && ops_view(ev.messages@) == query_spec(mgr.cloud_log_view(), watermark_of(timestamps@), OPS_PER_REQUEST as nat)
                && ev.has_more == (ev.messages@.len() == OPS_PER_REQUEST)),
            Request::FinishedIngesting => r is Finish,
            Request::Ingested => r is Skip,
        },
{
    match req {
        Request::FinishedIngesting => BridgeAction::Finish,
        Request::Ingested => BridgeAction::Skip,
        Request::Messages { timestamps, .. } => {
            let wm = watermark_from_entries(timestamps);
            let messages = mgr.get_cloud_ops(&wm, OPS_PER_REQUEST);
            let has_more = messages.len() == OPS_PER_REQUEST;
            BridgeAction::Respond(Event::Messages(MessagesEvent { instance_id: mgr.instance(), messages, has_more }))
        },
    }
}

/// Replay determinism over a cycle: a peer whose table and watermark are empty ends
/// one `run_cycle` against a cloud mirror, in which each instance's timestamps
/// increase along the log, with the table that replaying the mirror gives.
pub proof fn lemma_cycle_replays(cloud: Seq<crate::op::OpView>)
    requires
        fresh_and_ordered(Map::empty(), cloud),
    ensures
        ingest_spec(TableState::empty(), Map::empty(), eligible(cloud, Map::empty())).0
            == replay(TableState::empty(), cloud),
{
    lemma_eligible_all(cloud);
    lemma_ingest_replays(TableState::empty(), Map::empty(), cloud);
}

/// One ingest cycle against the cloud-mirrored log: the actor is notified, each of
/// its requests is answered by `bridge_step`, and the cycle ends when a batch
/// announces nothing more. The actor is idle again; table and watermark are what
/// ingesting, in the log's order, the cloud operations the watermark did not cover
/// leaves, and the watermark then covers every operation of the cloud-mirrored log.
pub fn run_cycle(mgr: &mut Manager, actor: &mut Actor)
    requires
        old(mgr).wf(),
    ensures
        final(mgr).wf(),
        final(actor).state_spec() == IngestState::Idle,
        final(mgr).instance_spec() == old(mgr).instance_spec(),
        final(mgr).cloud_log_view() == old(mgr).cloud_log_view(),
        all_covered(final(mgr).watermark_view(), final(mgr).cloud_log_view()),
        (final(mgr).table_view(), final(mgr).watermark_view()) == ingest_spec(
            old(mgr).table_view(),
            old(mgr).watermark_view(),
            eligible(old(mgr).cloud_log_view(), old(mgr).watermark_view()),
        ),
{
    let mut reqs = match actor.handle(mgr, Event::Notification) {
        Ok(reqs) => reqs,
        Err(_) => {
            assert(false);
            return;
        },
    };
    let ghost cloud = mgr.cloud_log_view();
    let ghost target = ingest_spec(
        old(mgr).table_view(),
        old(mgr).watermark_view(),
        eligible(old(mgr).cloud_log_view(), old(mgr).watermark_view()),
    );
    loop
        invariant
            mgr.wf(),
            actor.state_spec() == IngestState::RequestingMessages,
            asks_for(reqs@, mgr.instance_spec(), mgr.watermark_view()),
            mgr.cloud_log_view() == cloud,
            mgr.instance_spec() == old(mgr).instance_spec(),
            cloud == old(mgr).cloud_log_view(),
            ingest_spec(mgr.table_view(), mgr.watermark_view(), eligible(cloud, mgr.watermark_view())) == target,
            target == ingest_spec(
                old(mgr).table_view(),
                old(mgr).watermark_view(),
                eligible(old(mgr).cloud_log_view(), old(mgr).watermark_view()),
            ),
        decreases eligible(cloud, mgr.watermark_view()).len(),
    {
        let ghost wm = mgr.watermark_view();
        let ghost m0 = *mgr;
        proof {
            if let Request::Messages { timestamps, .. } = reqs@[0] {
                lemma_watermark_of_distinct(timestamps@);
            }
        }
        let ev = match bridge_step(mgr, &reqs[0]) {
            BridgeAction::Respond(Event::Messages(ev)) => ev,
            _ => {
                assert(false);
                return;
            },
        };
        let more = ev.has_more;
        let ghost batch = ops_view(ev.messages@);
        assert(batch == query_spec(cloud, wm, OPS_PER_REQUEST as nat));
        reqs = match actor.handle(mgr, Event::Messages(ev)) {
            Ok(r) => r,
            Err(_) => {
                assert(false);
                return;
            },
        };
        let ghost wm2 = mgr.watermark_view();
        proof {
            lemma_ingest_watermark(m0.table_view(), wm, batch);
            assert forall|o: crate::op::OpView| #[trigger] covered(wm, o) implies covered(wm2, o) by {
                assert(wm.contains_key(o.instance));
            }
            lemma_eligible_members(cloud, wm);
            let e = eligible(cloud, wm);
            let n = batch.len() as int;
            let rest = e.skip(n);
            assert(e == batch + rest);
            lemma_ingest_append(m0.table_view(), wm, batch, rest);
            lemma_ingest_eligible(mgr.table_view(), wm2, rest);
            lemma_eligible_twice(cloud, wm, wm2);
            lemma_eligible_concat(batch, rest, wm2);
            lemma_eligible_none(batch, wm2);
            assert(eligible(batch, wm2) + eligible(rest, wm2) == eligible(rest, wm2));
            if more {
                assert(batch.len() == OPS_PER_REQUEST);
                assert(batch[0] == e[0]);
                assert(!covered(wm, e[0]) && has_op(cloud, e[0]));
                assert(covered(wm2, batch[0]));
                let i = choose|i: int| 0 <= i < cloud.len() && cloud[i] == e[0];
                lemma_eligible_shrinks(cloud, wm, wm2, i);
            } else {
                assert(batch == e);
                assert forall|i: int| 0 <= i < cloud.len() implies covered(wm2, #[trigger] cloud[i]) by {
                    if !covered(wm, cloud[i]) {
                        assert(has_op(e, cloud[i]));
                        let j = choose|j: int| 0 <= j < e.len() && e[j] == cloud[i];
                        assert(covered(wm2, batch[j]));
                    }
                }
                lemma_eligible_none(cloud, wm2);
                assert(ingest_spec(mgr.table_view(), wm2, Seq::<crate::op::OpView>::empty()) == (mgr.table_view(), wm2));
            }
        }
        if !more {
            return;
        }
    }
}

} // verus!
