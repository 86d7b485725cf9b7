//! The persistence worker's decisions: when to write the buffer and
//! when to advance a broker offset.
//!
//! The worker never performs I/O itself. `on_received` hands back the
//! batch to write, if any; after the caller has written it durably,
//! `on_write_ok` hands back the offset-commit request, if one is due.
//! A commit request is only ever derived from the token stored by an
//! earlier `on_write_ok` call, so an offset never advances past
//! records that were not yet durably persisted.

use vstd::prelude::*;

use crate::etl::EtlResult;

verus! {

/// The records one write cycle may batch before it must flush.
pub const BUFFER_LIMIT: usize = 100_000;

/// How far a new offset must run ahead before a commit is considered.
pub const OFFSET_HEADROOM: i64 = 100;

/// The shortest pause between two offset commits, in milliseconds.
pub const COMMIT_PAUSE_MS: u64 = 1_000;

/// One broker message's provenance: enough to advance the durable
/// offset of its partition.
#[derive(Clone)]
pub struct TopicCommiter {
    pub chain_id: u64,
    pub topic_id: String,
    pub partition: i32,
    pub offset: i64,
}

impl TopicCommiter {
    /// The offset fits the broker's commit convention.
    pub open spec fn wf(&self) -> bool {
        self.offset > i64::MIN
    }

    /// A faithful copy.
    pub fn dup(&self) -> (r: TopicCommiter)
        ensures
            r.chain_id == self.chain_id,
            r.topic_id@ == self.topic_id@,
            r.partition == self.partition,
            r.offset == self.offset,
    {
        TopicCommiter {
            chain_id: self.chain_id,
            topic_id: self.topic_id.clone(),
            partition: self.partition,
            offset: self.offset,
        }
    }

    /// The durable-advance request for this token: one below its own
    /// offset, as the broker re-delivers from the committed position.
    pub fn commit(&self) -> (r: CommitRequest)
        requires
            self.wf(),
        ensures
            r.topic_id@ == self.topic_id@,
            r.partition == self.partition,
            r.offset == self.offset - 1,
    {
        CommitRequest {
            topic_id: self.topic_id.clone(),
            partition: self.partition,
            offset: self.offset - 1,
        }
    }
}

/// A request to durably advance one partition to `offset`.
#[derive(Clone)]
pub struct CommitRequest {
    pub topic_id: String,
    pub partition: i32,
    pub offset: i64,
}

/// The token travelling with a batch of derived records: nothing for
/// the live adapter, the message's provenance for the queue adapter.
#[derive(Clone)]
pub enum Commiter {
    Noop,
    Kafka(TopicCommiter),
}

impl Commiter {
    /// Queue tokens carry a committable offset.
    pub open spec fn wf(&self) -> bool {
        match self {
            Commiter::Kafka(t) => t.wf(),
            Commiter::Noop => true,
        }
    }
}

/// True when the worker flushes: the bus is drained or the buffer has
/// outgrown its limit.
pub open spec fn must_write(buffered: int, bus_pending: bool) -> bool {
    !bus_pending || buffered > BUFFER_LIMIT as int
}

/// True when a new token releases the stored one: a different topic,
/// an offset far enough ahead, and enough time gone by.
pub open spec fn commit_due(
    latest: TopicCommiter,
    token: TopicCommiter,
    last_commit_ms: u64,
    now_ms: u64,
) -> bool {
    &&& token.topic_id@ != latest.topic_id@
    &&& token.offset > latest.offset + OFFSET_HEADROOM
    &&& now_ms > last_commit_ms + COMMIT_PAUSE_MS
}

/// The persistence worker's state between bus messages.
pub struct PersistWorker {
    buffer: Vec<EtlResult>,
    latest: Option<TopicCommiter>,
    last_commit_at_ms: u64,
}

impl PersistWorker {
    /// The records accumulated and not yet written.
    pub closed spec fn buffered(&self) -> Seq<EtlResult> {
        self.buffer@
    }

    /// The token of the last durably written queue batch.
    pub closed spec fn latest_token(&self) -> Option<TopicCommiter> {
        self.latest
    }

    /// When the worker last advanced an offset.
    pub closed spec fn last_commit_ms(&self) -> u64 {
        self.last_commit_at_ms
    }

    /// A stored token is committable.
    pub open spec fn wf(&self) -> bool {
        self.latest_token() matches Some(l) ==> l.wf()
    }

    /// A fresh worker: empty buffer, no token, the clock started now.
    pub fn new(now_ms: u64) -> (r: PersistWorker)
        ensures
            r.buffered() == Seq::<EtlResult>::empty(),
            r.latest_token() is None,
            r.last_commit_ms() == now_ms,
            r.wf(),
    {
        let r = PersistWorker { buffer: Vec::new(), latest: None, last_commit_at_ms: now_ms };
        proof {
            assert(r.buffered() =~= Seq::<EtlResult>::empty());
        }
        r
    }

    /// Takes one bus message's records. Returns the whole buffer to
    /// write when the bus is drained or the buffer has outgrown its
    /// limit; otherwise keeps batching.
    pub fn on_received(&mut self, records: Vec<EtlResult>, bus_pending: bool) -> (write: Option<
        Vec<EtlResult>,
    >)
        requires
            old(self).wf(),
        ensures
            final(self).wf(),
            final(self).latest_token() == old(self).latest_token(),
            final(self).last_commit_ms() == old(self).last_commit_ms(),
            !must_write(old(self).buffered().len() + records@.len() as int, bus_pending) ==> {
                &&& write is None
                &&& final(self).buffered() == old(self).buffered() + records@
            },
            must_write(old(self).buffered().len() + records@.len() as int, bus_pending) ==> {
                &&& (write matches Some(b) && b@ == old(self).buffered() + records@)
                &&& final(self).buffered() == Seq::<EtlResult>::empty()
            },
    {
        let mut records = records;
        let ghost combined = self.buffer@ + records@;
        self.buffer.append(&mut records);
        proof {
            assert(self.buffer@ == combined);
        }
        let pending_more = bus_pending && self.buffer.len() <= BUFFER_LIMIT;
        if pending_more {
            None
        } else {
            let mut batch: Vec<EtlResult> = Vec::new();
            core::mem::swap(&mut batch, &mut self.buffer);
            proof {
                assert(self.buffered() =~= Seq::<EtlResult>::empty());
            }
            Some(batch)
        }
    }

    /// Takes the token of a batch whose write just succeeded. Returns
    /// the commit request for the *stored* token when the new token
    /// releases it, and stores a queue token for the next cycle. The
    /// request never stems from the token of the batch just written,
    /// so an offset is only advanced once a later batch is durable.
    pub fn on_write_ok(&mut self, committer: Commiter, now_ms: u64) -> (r: Option<CommitRequest>)
        requires
            old(self).wf(),
            committer.wf(),
        ensures
            final(self).wf(),
            final(self).buffered() == old(self).buffered(),
            r is Some <==> (old(self).latest_token() matches Some(l)
                && committer matches Commiter::Kafka(t) && commit_due(
                l,
                t,
                old(self).last_commit_ms(),
                now_ms,
            )),
            r matches Some(req) ==> (old(self).latest_token() matches Some(l) && {
                &&& req.topic_id@ == l.topic_id@
                &&& req.partition == l.partition
                &&& req.offset == l.offset - 1
            }),
            final(self).last_commit_ms() == if r is Some {
                now_ms
            } else {
                old(self).last_commit_ms()
            },
            final(self).latest_token() == (match committer {
                Commiter::Kafka(t) => Some(t),
                Commiter::Noop => old(self).latest_token(),
            }),
    {
        match committer {
            Commiter::Kafka(token) => {
                let mut out: Option<CommitRequest> = None;
                match &self.latest {
                    Some(l) => {
                        let different = !(l.topic_id == token.topic_id);
                        let far_ahead = token.offset as i128 > l.offset as i128
                            + OFFSET_HEADROOM as i128;
                        let late_enough = now_ms as u128 > self.last_commit_at_ms as u128
                            + COMMIT_PAUSE_MS as u128;
                        if different && far_ahead && late_enough {
                            out = Some(l.commit());
                        }
                    },
                    None => {},
                }
                if out.is_some() {
                    self.last_commit_at_ms = now_ms;
                }
                self.latest = Some(token);
                out
            },
            Commiter::Noop => None,
        }
    }
}

/// One observable event in a worker's life: a bus message folded into
/// the buffer, or a batch written durably with its token.
pub enum WorkerEvent {
    Received,
    WroteOk(Commiter),
}

/// The token a worker stores after these events, newest first wins:
/// the queue token of the most recent durable write. `on_received`
/// never touches it, and `on_write_ok` stores exactly the written
/// batch's queue token, so a worker driven from `new` satisfies
/// `latest_token() == latest_after(history)`.
pub open spec fn latest_after(events: Seq<WorkerEvent>) -> Option<TopicCommiter>
    decreases events.len(),
{
    if events.len() == 0 {
        None
    } else {
        match events.last() {
            WorkerEvent::WroteOk(Commiter::Kafka(t)) => Some(t),
            WorkerEvent::WroteOk(Commiter::Noop) => latest_after(events.drop_last()),
            WorkerEvent::Received => latest_after(events.drop_last()),
        }
    }
}

/// An offset commit never runs ahead of persistence: the token a
/// worker holds after any run of events — the only token a commit
/// request is ever derived from — was carried by one of the durable
/// writes in that run, so its offset was already persisted.
pub proof fn lemma_stored_token_was_written(events: Seq<WorkerEvent>)
    ensures
        latest_after(events) matches Some(t) ==> exists|i: int|
            0 <= i < events.len() && #[trigger] events[i] == WorkerEvent::WroteOk(
                Commiter::Kafka(t),
            ),
    decreases events.len(),
{
    if events.len() > 0 {
        lemma_stored_token_was_written(events.drop_last());
        match events.last() {
            WorkerEvent::WroteOk(Commiter::Kafka(t)) => {
                assert(events[events.len() - 1] == WorkerEvent::WroteOk(Commiter::Kafka(t)));
            },
            _ => {
                match latest_after(events) {
                    Some(t) => {
                        let i = choose|i: int|
                            0 <= i < events.drop_last().len() && #[trigger] events.drop_last()[i]
                                == WorkerEvent::WroteOk(Commiter::Kafka(t));
                        assert(events[i] == WorkerEvent::WroteOk(Commiter::Kafka(t)));
                    },
                    None => {},
                }
            },
        }
    }
}


} // verus!
