//! Per-chain counters behind the health endpoint.
//!
//! The watcher applies every bus message to this state: the last block
//! number seen per chain, the last block number carrying an emitted
//! transaction per chain, and the last commit offset per topic.

use vstd::prelude::*;

use crate::etl::EtlResult;
use crate::text::dec_of;
use crate::worker::Commiter;

verus! {

/// The last value recorded under `key`, scanning from the newest row.
pub open spec fn lookup_u64(rows: Seq<(u64, u64)>, key: u64) -> Option<u64>
    decreases rows.len(),
{
    if rows.len() == 0 {
        None
    } else if rows.last().0 == key {
        Some(rows.last().1)
    } else {
        lookup_u64(rows.drop_last(), key)
    }
}

/// The last offset recorded under `topic`.
pub open spec fn lookup_topic(rows: Seq<(Seq<char>, u64)>, topic: Seq<char>) -> Option<u64>
    decreases rows.len(),
{
    if rows.len() == 0 {
        None
    } else if rows.last().0 == topic {
        Some(rows.last().1)
    } else {
        lookup_topic(rows.drop_last(), topic)
    }
}

/// The newest block number a batch carries for `chain`, if any.
pub open spec fn last_block_of(results: Seq<EtlResult>, chain: u64) -> Option<u64>
    decreases results.len(),
{
    if results.len() == 0 {
        None
    } else {
        match results.last() {
            EtlResult::BlockWithChainId(b) => if b.chain_id == chain {
                Some(b.block.number)
            } else {
                last_block_of(results.drop_last(), chain)
            },
            _ => last_block_of(results.drop_last(), chain),
        }
    }
}

/// The newest transaction block number a batch carries for `chain`.
pub open spec fn last_tx_block_of(results: Seq<EtlResult>, chain: u64) -> Option<u64>
    decreases results.len(),
{
    if results.len() == 0 {
        None
    } else {
        match results.last() {
            EtlResult::Transaction(t) => if t.chain_id == chain {
                Some(t.block_number)
            } else {
                last_tx_block_of(results.drop_last(), chain)
            },
            _ => last_tx_block_of(results.drop_last(), chain),
        }
    }
}

/// `fresh` when a batch carried a value, else `stored`.
pub open spec fn merged(stored: Option<u64>, fresh: Option<u64>) -> Option<u64> {
    match fresh {
        Some(v) => Some(v),
        None => stored,
    }
}

/// Records `val` under `topic`, replacing the topic's row when
/// present.
fn upsert_topic(rows: &mut Vec<(String, u64)>, topic: &String, val: u64)
    requires
        topics_unique(topic_views(old(rows)@)),
    ensures
        topics_unique(topic_views(final(rows)@)),
        forall|t: Seq<char>| #[trigger] lookup_topic(topic_views(final(rows)@), t) == if t
            == topic@ {
            Some(val)
        } else {
            lookup_topic(topic_views(old(rows)@), t)
        },
{
    let ghost before = topic_views(rows@);
    let mut j: usize = 0;
    while j < rows.len()
        invariant
            j <= rows@.len(),
            rows@ == old(rows)@,
            before == topic_views(rows@),
            topics_unique(before),
            forall|w: int| 0 <= w < j ==> (#[trigger] before[w]).0 != topic@,
        decreases rows@.len() - j,
    {
        if rows[j].0 == *topic {
            rows.set(j, (topic.clone(), val));
            proof {
                let after = topic_views(rows@);
                assert(after[j as int].0 == before[j as int].0);
                assert forall|w: int| 0 <= w < before.len() && w != j implies #[trigger] after[w]
                    == before[w] by {}
                assert forall|t: Seq<char>| #[trigger] lookup_topic(after, t) == if t == topic@ {
                    Some(val)
                } else {
                    lookup_topic(before, t)
                } by {
                    lemma_lookup_topic_update(before, after, j as int, t);
                }
                assert forall|a: int, b: int| 0 <= a < b < after.len() implies (
                #[trigger] after[a]).0 != (#[trigger] after[b]).0 by {}
            }
            return ;
        }
        j = j + 1;
    }
    let fresh = topic.clone();
    assert(fresh@ == topic@);
    rows.push((fresh, val));
    proof {
        let after = topic_views(rows@);
        assert(after.drop_last() =~= before);
        assert(after.last().0 == topic@);
        assert(after.last().1 == val);
        assert forall|a: int, b: int| 0 <= a < b < after.len() implies (#[trigger] after[a]).0
            != (#[trigger] after[b]).0 by {
            if b < before.len() {
                assert(after[a] == after.drop_last()[a]);
                assert(after[b] == after.drop_last()[b]);
            } else {
                assert(after[a] == after.drop_last()[a]);
                assert(after[a] == before[a]);
                assert(after[b] == after.last());
                assert(before[a].0 != topic@);
            }
        }
    }
}

/// The counters the health endpoint exposes.
pub struct Stats {
    latest_block: Vec<(u64, u64)>,
    latest_tx_block: Vec<(u64, u64)>,
    topic_offsets: Vec<(String, u64)>,
}

/// The topic rows as plain values.
pub open spec fn topic_views(rows: Seq<(String, u64)>) -> Seq<(Seq<char>, u64)> {
    Seq::new(rows.len(), |i: int| (rows[i].0@, rows[i].1))
}

/// One row per key.
pub open spec fn rows_unique(rows: Seq<(u64, u64)>) -> bool {
    forall|i: int, j: int| 0 <= i < j < rows.len() ==> (#[trigger] rows[i]).0 != (
    #[trigger] rows[j]).0
}

/// One row per topic.
pub open spec fn topics_unique(rows: Seq<(Seq<char>, u64)>) -> bool {
    forall|i: int, j: int| 0 <= i < j < rows.len() ==> (#[trigger] rows[i]).0 != (
    #[trigger] rows[j]).0
}

/// Replacing the value at one key's row changes only that key's
/// lookup.
proof fn lemma_lookup_u64_update(rows0: Seq<(u64, u64)>, rows1: Seq<(u64, u64)>, i: int, k: u64)
    requires
        0 <= i < rows0.len(),
        rows1.len() == rows0.len(),
        rows_unique(rows0),
        forall|j: int| 0 <= j < rows0.len() && j != i ==> #[trigger] rows1[j] == rows0[j],
        rows1[i].0 == rows0[i].0,
    ensures
        lookup_u64(rows1, k) == if k == rows0[i].0 {
            Some(rows1[i].1)
        } else {
            lookup_u64(rows0, k)
        },
    decreases rows0.len(),
{
    let n = rows0.len();
    if i == n - 1 {
        if k != rows0[i].0 {
            assert(rows1.drop_last() =~= rows0.drop_last());
        }
    } else {
        assert(rows1.last() == rows0.last());
        if k == rows0.last().0 {
            assert(k != rows0[i].0);
        } else {
            assert forall|a: int, b: int|
                0 <= a < b < rows0.drop_last().len() implies (#[trigger] rows0.drop_last()[
                a]).0 != (#[trigger] rows0.drop_last()[b]).0 by {
                assert(rows0.drop_last()[a] == rows0[a]);
                assert(rows0.drop_last()[b] == rows0[b]);
            }
            assert forall|j: int| 0 <= j < rows0.drop_last().len() && j != i implies
                #[trigger] rows1.drop_last()[j] == rows0.drop_last()[j] by {
                assert(rows1.drop_last()[j] == rows1[j]);
                assert(rows0.drop_last()[j] == rows0[j]);
            }
            assert(rows1.drop_last()[i] == rows1[i]);
            assert(rows0.drop_last()[i] == rows0[i]);
            lemma_lookup_u64_update(rows0.drop_last(), rows1.drop_last(), i, k);
        }
    }
}

/// A key with no row looks up to nothing.
proof fn lemma_lookup_u64_absent(rows: Seq<(u64, u64)>, k: u64)
    requires
        forall|j: int| 0 <= j < rows.len() ==> (#[trigger] rows[j]).0 != k,
    ensures
        lookup_u64(rows, k) is None,
    decreases rows.len(),
{
    if rows.len() > 0 {
        assert(rows[rows.len() - 1].0 != k);
        assert forall|j: int| 0 <= j < rows.drop_last().len() implies (
        #[trigger] rows.drop_last()[j]).0 != k by {
            assert(rows.drop_last()[j] == rows[j]);
        }
        lemma_lookup_u64_absent(rows.drop_last(), k);
    }
}

/// Records `val` under `key`, replacing the key's row when present.
fn upsert_u64(rows: &mut Vec<(u64, u64)>, key: u64, val: u64)
    requires
        rows_unique(old(rows)@),
    ensures
        rows_unique(final(rows)@),
        forall|k: u64| #[trigger] lookup_u64(final(rows)@, k) == if k == key {
            Some(val)
        } else {
            lookup_u64(old(rows)@, k)
        },
{
    let ghost rows0 = rows@;
    let mut i: usize = 0;
    while i < rows.len()
        invariant
            i <= rows.len(),
            rows@ == rows0,
            rows0 == old(rows)@,
            rows_unique(rows0),
            forall|j: int| 0 <= j < i ==> (#[trigger] rows0[j]).0 != key,
        decreases rows.len() - i,
    {
        if rows[i].0 == key {
            rows.set(i, (key, val));
            proof {
                assert forall|k: u64| #[trigger] lookup_u64(rows@, k) == if k == key {
                    Some(val)
                } else {
                    lookup_u64(rows0, k)
                } by {
                    lemma_lookup_u64_update(rows0, rows@, i as int, k);
                }
                assert forall|a: int, b: int|
                    0 <= a < b < rows@.len() implies (#[trigger] rows@[a]).0 != (
                #[trigger] rows@[b]).0 by {}
            }
            return ;
        }
        i = i + 1;
    }
    rows.push((key, val));
    proof {
        assert(rows@.drop_last() =~= rows0);
        assert forall|k: u64| #[trigger] lookup_u64(rows@, k) == if k == key {
            Some(val)
        } else {
            lookup_u64(rows0, k)
        } by {}
        assert forall|a: int, b: int| 0 <= a < b < rows@.len() implies (#[trigger] rows@[a]).0
            != (#[trigger] rows@[b]).0 by {
            if b < rows0.len() {
            } else {
                assert(rows@[a] == rows0[a]);
            }
        }
    }
}

/// Replacing one topic row's value changes only that topic's lookup.
proof fn lemma_lookup_topic_update(
    rows0: Seq<(Seq<char>, u64)>,
    rows1: Seq<(Seq<char>, u64)>,
    i: int,
    t: Seq<char>,
)
    requires
        0 <= i < rows0.len(),
        rows1.len() == rows0.len(),
        topics_unique(rows0),
        forall|j: int| 0 <= j < rows0.len() && j != i ==> #[trigger] rows1[j] == rows0[j],
        rows1[i].0 == rows0[i].0,
    ensures
        lookup_topic(rows1, t) == if t == rows0[i].0 {
            Some(rows1[i].1)
        } else {
            lookup_topic(rows0, t)
        },
    decreases rows0.len(),
{
    let n = rows0.len();
    if i == n - 1 {
        if t != rows0[i].0 {
            assert(rows1.drop_last() =~= rows0.drop_last());
        }
    } else {
        assert(rows1.last() == rows0.last());
        if t == rows0.last().0 {
            assert(t != rows0[i].0);
        } else {
            assert forall|a: int, b: int|
                0 <= a < b < rows0.drop_last().len() implies (#[trigger] rows0.drop_last()[
                a]).0 != (#[trigger] rows0.drop_last()[b]).0 by {
                assert(rows0.drop_last()[a] == rows0[a]);
                assert(rows0.drop_last()[b] == rows0[b]);
            }
            assert forall|j: int| 0 <= j < rows0.drop_last().len() && j != i implies
                #[trigger] rows1.drop_last()[j] == rows0.drop_last()[j] by {
                assert(rows1.drop_last()[j] == rows1[j]);
                assert(rows0.drop_last()[j] == rows0[j]);
            }
            assert(rows1.drop_last()[i] == rows1[i]);
            assert(rows0.drop_last()[i] == rows0[i]);
            lemma_lookup_topic_update(rows0.drop_last(), rows1.drop_last(), i, t);
        }
    }
}

impl Stats {
    /// The per-chain block rows, oldest first.
    pub closed spec fn block_rows(&self) -> Seq<(u64, u64)> {
        self.latest_block@
    }

    /// The per-chain transaction-block rows, oldest first.
    pub closed spec fn tx_rows(&self) -> Seq<(u64, u64)> {
        self.latest_tx_block@
    }

    /// The per-topic offset rows, oldest first.
    pub closed spec fn topic_rows(&self) -> Seq<(Seq<char>, u64)> {
        topic_views(self.topic_offsets@)
    }

    /// The last block number seen for `chain`.
    pub closed spec fn block_stat(&self, chain: u64) -> Option<u64> {
        lookup_u64(self.latest_block@, chain)
    }

    /// The last block number of an emitted transaction for `chain`.
    pub closed spec fn tx_block_stat(&self, chain: u64) -> Option<u64> {
        lookup_u64(self.latest_tx_block@, chain)
    }

    /// The last commit offset seen for `topic`.
    pub closed spec fn offset_stat(&self, topic: Seq<char>) -> Option<u64> {
        lookup_topic(topic_views(self.topic_offsets@), topic)
    }

    /// One row per chain and per topic.
    pub closed spec fn wf(&self) -> bool {
        &&& rows_unique(self.latest_block@)
        &&& rows_unique(self.latest_tx_block@)
        &&& topics_unique(topic_views(self.topic_offsets@))
    }

    /// Empty counters.
    pub fn new() -> (r: Stats)
        ensures
            r.wf(),
            forall|c: u64| #[trigger] r.block_stat(c) is None,
            forall|c: u64| #[trigger] r.tx_block_stat(c) is None,
            forall|t: Seq<char>| #[trigger] r.offset_stat(t) is None,
    {
        let r = Stats {
            latest_block: Vec::new(),
            latest_tx_block: Vec::new(),
            topic_offsets: Vec::new(),
        };
        proof {
            assert(topic_views(r.topic_offsets@) =~= Seq::<(Seq<char>, u64)>::empty());
        }
        r
    }

    /// Applies one bus message: every block and transaction in the
    /// batch updates its chain's counter, newest winning, and a queue
    /// token updates its topic's offset.
    pub fn apply(&mut self, results: &Vec<EtlResult>, committer: &Commiter)
        requires
            old(self).wf(),
        ensures
            final(self).wf(),
            forall|c: u64| #[trigger] final(self).block_stat(c) == merged(
                old(self).block_stat(c),
                last_block_of(results@, c),
            ),
            forall|c: u64| #[trigger] final(self).tx_block_stat(c) == merged(
                old(self).tx_block_stat(c),
                last_tx_block_of(results@, c),
            ),
            forall|t: Seq<char>| #[trigger] final(self).offset_stat(t) == (match committer {
                Commiter::Kafka(tc) => if t == tc.topic_id@ {
                    Some(tc.offset as u64)
                } else {
                    old(self).offset_stat(t)
                },
                Commiter::Noop => old(self).offset_stat(t),
            }),
    {
        let ghost rv = results@;
        let mut i: usize = 0;
        while i < results.len()
            invariant
                i <= rv.len(),
                rv == results@,
                self.wf(),
                forall|c: u64| #[trigger] self.block_stat(c) == merged(
                    old(self).block_stat(c),
                    last_block_of(rv.take(i as int), c),
                ),
                forall|c: u64| #[trigger] self.tx_block_stat(c) == merged(
                    old(self).tx_block_stat(c),
                    last_tx_block_of(rv.take(i as int), c),
                ),
                forall|t: Seq<char>| #[trigger] self.offset_stat(t) == old(self).offset_stat(t),
            decreases rv.len() - i,
        {
            proof {
                assert(rv.take(i + 1).drop_last() =~= rv.take(i as int));
                assert(rv.take(i + 1).last() == rv[i as int]);
            }
            let ghost pre = *self;
            match &results[i] {
                EtlResult::BlockWithChainId(b) => {
                    upsert_u64(&mut self.latest_block, b.chain_id, b.block.number);
                    proof {
                        assert forall|c: u64| #[trigger] self.block_stat(c) == merged(
                            old(self).block_stat(c),
                            last_block_of(rv.take(i + 1), c),
                        ) by {
                            assert(self.block_stat(c) == if c == b.chain_id {
                                Some(b.block.number)
                            } else {
                                pre.block_stat(c)
                            });
                        }
                        assert forall|c: u64| #[trigger] self.tx_block_stat(c) == merged(
                            old(self).tx_block_stat(c),
                            last_tx_block_of(rv.take(i + 1), c),
                        ) by {
                            assert(self.tx_block_stat(c) == pre.tx_block_stat(c));
                        }
                        assert forall|t2: Seq<char>| #[trigger] self.offset_stat(t2)
                            == pre.offset_stat(t2) by {}
                    }
                },
                EtlResult::Transaction(t) => {
                    upsert_u64(&mut self.latest_tx_block, t.chain_id, t.block_number);
                    proof {
                        assert forall|c: u64| #[trigger] self.tx_block_stat(c) == merged(
                            old(self).tx_block_stat(c),
                            last_tx_block_of(rv.take(i + 1), c),
                        ) by {
                            assert(self.tx_block_stat(c) == if c == t.chain_id {
                                Some(t.block_number)
                            } else {
                                pre.tx_block_stat(c)
                            });
                        }
                        assert forall|c: u64| #[trigger] self.block_stat(c) == merged(
                            old(self).block_stat(c),
                            last_block_of(rv.take(i + 1), c),
                        ) by {
                            assert(self.block_stat(c) == pre.block_stat(c));
                        }
                        assert forall|t2: Seq<char>| #[trigger] self.offset_stat(t2)
                            == pre.offset_stat(t2) by {}
                    }
                },
                EtlResult::Contract(_) => {
                    proof {
                        assert forall|c: u64| #[trigger] self.block_stat(c) == merged(
                            old(self).block_stat(c),
                            last_block_of(rv.take(i + 1), c),
                        ) by {}
                        assert forall|c: u64| #[trigger] self.tx_block_stat(c) == merged(
                            old(self).tx_block_stat(c),
                            last_tx_block_of(rv.take(i + 1), c),
                        ) by {}
                    }
                },
            }
            i = i + 1;
        }
        proof {
            assert(rv.take(rv.len() as int) =~= rv);
        }
        let ghost mid = *self;
        match committer {
            Commiter::Kafka(tc) => {
                let offset_now: u64 = #[verifier::truncate] (tc.offset as u64);
                upsert_topic(&mut self.topic_offsets, &tc.topic_id, offset_now);
                proof {
                    assert forall|t2: Seq<char>| #[trigger] self.offset_stat(t2) == if t2
                        == tc.topic_id@ {
                        Some(tc.offset as u64)
                    } else {
                        mid.offset_stat(t2)
                    } by {}
                    assert forall|c: u64| #[trigger] self.block_stat(c) == mid.block_stat(
                        c,
                    ) by {}
                    assert forall|c: u64| #[trigger] self.tx_block_stat(c) == mid.tx_block_stat(
                        c,
                    ) by {}
                }
            },
            Commiter::Noop => {},
        }
    }

    /// The counters as `(metric name, value)` lines: per-chain block
    /// and transaction-block metrics, then per-topic offsets.
    pub fn read(&self) -> (r: Vec<(String, u64)>)
        ensures
            topic_views(r@) == stat_lines(self.block_rows(), self.tx_rows(), self.topic_rows()),
    {
        let mut r: Vec<(String, u64)> = Vec::new();
        let mut i: usize = 0;
        while i < self.latest_block.len()
            invariant
                i <= self.latest_block@.len(),
                r@.len() == i,
                forall|j: int|
                    0 <= j < i ==> (#[trigger] r@[j]).0@ == "latest_block_"@ + dec_of(
                        self.latest_block@[j].0 as nat,
                    ) && r@[j].1 == self.latest_block@[j].1,
            decreases self.latest_block@.len() - i,
        {
            let mut name = String::new();
            name.append("latest_block_");
            crate::text::push_dec_u64(&mut name, self.latest_block[i].0);
            r.push((name, self.latest_block[i].1));
            i = i + 1;
        }
        let ghost first_len = r@.len();
        let mut k: usize = 0;
        while k < self.latest_tx_block.len()
            invariant
                k <= self.latest_tx_block@.len(),
                r@.len() == first_len + k,
                first_len == self.latest_block@.len(),
                forall|j: int|
                    0 <= j < first_len ==> (#[trigger] r@[j]).0@ == "latest_block_"@ + dec_of(
                        self.latest_block@[j].0 as nat,
                    ) && r@[j].1 == self.latest_block@[j].1,
                forall|j: int|
                    0 <= j < k ==> (#[trigger] r@[first_len + j]).0@
                        == "latest_transaction_block_"@ + dec_of(
                        self.latest_tx_block@[j].0 as nat,
                    ) && r@[first_len + j].1 == self.latest_tx_block@[j].1,
            decreases self.latest_tx_block@.len() - k,
        {
            let mut name = String::new();
            name.append("latest_transaction_block_");
            crate::text::push_dec_u64(&mut name, self.latest_tx_block[k].0);
            r.push((name, self.latest_tx_block[k].1));
            k = k + 1;
        }
        let ghost second_len = r@.len();
        let mut m: usize = 0;
        while m < self.topic_offsets.len()
            invariant
                m <= self.topic_offsets@.len(),
                r@.len() == second_len + m,
                first_len == self.latest_block@.len(),
                second_len == first_len + self.latest_tx_block@.len(),
                forall|j: int|
                    0 <= j < first_len ==> (#[trigger] r@[j]).0@ == "latest_block_"@ + dec_of(
                        self.latest_block@[j].0 as nat,
                    ) && r@[j].1 == self.latest_block@[j].1,
                forall|j: int|
                    0 <= j < second_len - first_len ==> (#[trigger] r@[first_len + j]).0@
                        == "latest_transaction_block_"@ + dec_of(
                        self.latest_tx_block@[j].0 as nat,
                    ) && r@[first_len + j].1 == self.latest_tx_block@[j].1,
                forall|j: int|
                    0 <= j < m ==> (#[trigger] r@[second_len + j]).0@
                        == self.topic_offsets@[j].0@ && r@[second_len + j].1
                        == self.topic_offsets@[j].1,
            decreases self.topic_offsets@.len() - m,
        {
            r.push((self.topic_offsets[m].0.clone(), self.topic_offsets[m].1));
            m = m + 1;
        }
        proof {
            let lines = stat_lines(self.block_rows(), self.tx_rows(), self.topic_rows());
            assert forall|j: int| 0 <= j < r@.len() implies #[trigger] topic_views(r@)[j]
                == lines[j] by {
                assert(topic_views(r@)[j] == (r@[j].0@, r@[j].1));
                if j < first_len {
                } else if j < second_len {
                    assert(r@[first_len + (j - first_len)].0@ == "latest_transaction_block_"@
                        + dec_of(self.latest_tx_block@[j - first_len].0 as nat));
                } else {
                    assert(r@[second_len + (j - second_len)].0@
                        == self.topic_offsets@[j - second_len].0@);
                }
            }
            assert(topic_views(r@) =~= stat_lines(
                self.block_rows(),
                self.tx_rows(),
                self.topic_rows(),
            ));
        }
        r
    }
}

/// The metric lines: block counters, transaction-block counters, then
/// topic offsets, names rendered with their chain number.
pub open spec fn stat_lines(
    blocks: Seq<(u64, u64)>,
    tx_blocks: Seq<(u64, u64)>,
    topics: Seq<(Seq<char>, u64)>,
) -> Seq<(Seq<char>, u64)> {
    Seq::new(blocks.len(), |i: int| ("latest_block_"@ + dec_of(blocks[i].0 as nat), blocks[i].1))
        + Seq::new(
        tx_blocks.len(),
        |i: int| ("latest_transaction_block_"@ + dec_of(tx_blocks[i].0 as nat), tx_blocks[i].1),
    ) + topics
}

} // verus!
