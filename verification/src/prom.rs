//! The counters that the proxy publishes.
//!
//! [`PacketCounters`] holds the totals as plain numbers. The function that
//! counts an event changes the one total the event belongs to and no other.

use vstd::prelude::*;

use crate::text::texts;

verus! {

/// One counter of a family, told apart from the others by its labels.
pub struct LabelledCount {
    pub labels: Vec<String>,
    pub count: u64,
}

/// A family of counters.
pub struct LabelCounts {
    entries: Vec<LabelledCount>,
}

/// The totals of the proxy.
pub struct PacketCounters {
    pub packets_received: u64,
    pub packets_deduped: u64,
    pub packets_forwarded: u64,
    pub packets_forward_failed: u64,
    pub routing_drop: u64,
    /// By queue.
    pub routing_send: LabelCounts,
    /// By address and status.
    pub packets_by_source: LabelCounts,
}

/// `n` more than `total`, but never more than the largest number.
pub open spec fn saturated_sum(total: u64, n: u64) -> u64 {
    if total + n > u64::MAX {
        u64::MAX
    } else {
        (total + n) as u64
    }
}

/// Whether two lists of labels are the same.
fn same_labels(a: &Vec<String>, b: &Vec<String>) -> (same: bool)
    ensures
        same == (texts(a@) == texts(b@)),
{
    if a.len() != b.len() {
        assert(texts(a@).len() != texts(b@).len());
        return false;
    }
    let mut i: usize = 0;
    while i < a.len()
        invariant
            a@.len() == b@.len(),
            i <= a@.len(),
            forall|j: int| 0 <= j < i ==> #[trigger] texts(a@)[j] == texts(b@)[j],
        decreases a.len() - i,
    {
        if a[i] != b[i] {
            assert(texts(a@)[i as int] != texts(b@)[i as int]);
            return false;
        }
        assert(texts(a@)[i as int] == texts(b@)[i as int]);
        i += 1;
    }
    assert(texts(a@) =~= texts(b@));
    true
}

/// The count of the first entry with these labels, 0 if there is none.
spec fn first_count(entries: Seq<LabelledCount>, labels: Seq<Seq<char>>) -> u64
    decreases entries.len(),
{
    if entries.len() == 0 {
        0
    } else if texts(entries[0].labels@) == labels {
        entries[0].count
    } else {
        first_count(entries.drop_first(), labels)
    }
}

/// Entries with other labels in front do not matter.
proof fn lemma_skip_others(entries: Seq<LabelledCount>, i: int, labels: Seq<Seq<char>>)
    requires
        0 <= i <= entries.len(),
        forall|j: int| 0 <= j < i ==> texts((#[trigger] entries[j]).labels@) != labels,
    ensures
        first_count(entries, labels) == first_count(entries.skip(i), labels),
    decreases i,
{
    if i == 0 {
        assert(entries.skip(0) =~= entries);
    } else {
        assert(texts(entries[0].labels@) != labels);
        assert forall|j: int| 0 <= j < i - 1 implies texts(
            (#[trigger] entries.drop_first()[j]).labels@,
        ) != labels by {
            assert(entries.drop_first()[j] == entries[j + 1]);
        }
        lemma_skip_others(entries.drop_first(), i - 1, labels);
        assert(entries.drop_first().skip(i - 1) =~= entries.skip(i));
    }
}

/// Changing a count, or adding an entry, leaves all other labels alone.
proof fn lemma_others_unchanged(
    before: Seq<LabelledCount>,
    after: Seq<LabelledCount>,
    key: Seq<Seq<char>>,
    other: Seq<Seq<char>>,
)
    requires
        key != other,
        before.len() <= after.len(),
        forall|j: int|
            0 <= j < before.len() ==> texts((#[trigger] after[j]).labels@) == texts(
                before[j].labels@,
            ),
        forall|j: int|
            0 <= j < before.len() && texts((#[trigger] after[j]).labels@) != key ==> after[j].count
                == before[j].count,
        forall|j: int| before.len() <= j < after.len() ==> texts((#[trigger] after[j]).labels@) == key,
    ensures
        first_count(after, other) == first_count(before, other),
    decreases after.len(),
{
    if after.len() > 0 {
        if before.len() > 0 {
            assert(texts(after[0].labels@) == texts(before[0].labels@));
            assert forall|j: int| 0 <= j < before.len() - 1 implies texts(
                (#[trigger] after.drop_first()[j]).labels@,
            ) == texts(before.drop_first()[j].labels@) by {
                assert(after.drop_first()[j] == after[j + 1]);
            }
            assert forall|j: int|
                0 <= j < before.len() - 1 && texts((#[trigger] after.drop_first()[j]).labels@)
                    != key implies after.drop_first()[j].count == before.drop_first()[j].count by {
                assert(after.drop_first()[j] == after[j + 1]);
            }
            assert forall|j: int| before.len() - 1 <= j < after.len() - 1 implies texts(
                (#[trigger] after.drop_first()[j]).labels@,
            ) == key by {
                assert(after.drop_first()[j] == after[j + 1]);
            }
            lemma_others_unchanged(before.drop_first(), after.drop_first(), key, other);
        } else {
            assert(texts(after[0].labels@) == key);
            assert forall|j: int| 0 <= j < after.len() - 1 implies texts(
                (#[trigger] after.drop_first()[j]).labels@,
            ) == key by {
                assert(after.drop_first()[j] == after[j + 1]);
            }
            lemma_others_unchanged(before, after.drop_first(), key, other);
        }
    }
}

impl LabelCounts {
    /// The counter with these labels, 0 if nothing was counted there.
    pub closed spec fn value(&self, labels: Seq<Seq<char>>) -> u64 {
        first_count(self.entries@, labels)
    }

    /// The labels that something was counted for, in the order in which they came up.
    pub closed spec fn counted(&self) -> Seq<Seq<Seq<char>>> {
        self.entries@.map_values(|e: LabelledCount| texts(e.labels@))
    }

    /// A family in which nothing was counted.
    pub fn new() -> (r: Self)
        ensures
            r.counted().len() == 0,
            forall|labels: Seq<Seq<char>>| #[trigger] r.value(labels) == 0,
    {
        LabelCounts { entries: Vec::new() }
    }

    /// Where the counter with these labels is.
    fn find(&self, labels: &Vec<String>) -> (r: Option<usize>)
        ensures
            match r {
                Some(i) => {
                    &&& i < self.entries@.len()
                    &&& texts(self.entries@[i as int].labels@) == texts(labels@)
                    &&& forall|j: int|
                        0 <= j < i ==> texts((#[trigger] self.entries@[j]).labels@) != texts(
                            labels@,
                        )
                },
                None => forall|j: int|
                    0 <= j < self.entries@.len() ==> texts((#[trigger] self.entries@[j]).labels@)
                        != texts(labels@),
            },
    {
        let mut i: usize = 0;
        while i < self.entries.len()
            invariant
                i <= self.entries@.len(),
                forall|j: int|
                    0 <= j < i ==> texts((#[trigger] self.entries@[j]).labels@) != texts(labels@),
            decreases self.entries.len() - i,
        {
            if same_labels(&self.entries[i].labels, labels) {
                return Some(i);
            }
            i += 1;
        }
        None
    }

    /// The counter with these labels.
    pub fn get(&self, labels: &Vec<String>) -> (n: u64)
        ensures
            n == self.value(texts(labels@)),
    {
        match self.find(labels) {
            Some(i) => {
                proof {
                    lemma_skip_others(self.entries@, i as int, texts(labels@));
                }
                self.entries[i].count
            },
            None => {
                proof {
                    lemma_skip_others(
                        self.entries@,
                        self.entries@.len() as int,
                        texts(labels@),
                    );
                }
                0
            },
        }
    }

    /// For how many labels something was counted.
    pub fn len(&self) -> (n: usize)
        ensures
            n == self.counted().len(),
    {
        self.entries.len()
    }

    /// The `i`-th labels that something was counted for.
    pub fn labels(&self, i: usize) -> (labels: &Vec<String>)
        requires
            i < self.counted().len(),
        ensures
            texts(labels@) == self.counted()[i as int],
    {
        &self.entries[i].labels
    }

    /// Counts `n` more for these labels. The number wraps around.
    pub fn inc_by(&mut self, labels: Vec<String>, n: u64)
        ensures
            final(self).counted() == (if old(self).counted().contains(texts(labels@)) {
                old(self).counted()
            } else {
                old(self).counted().push(texts(labels@))
            }),
            final(self).value(texts(labels@)) == old(self).value(texts(labels@)).wrapping_add(n),
            forall|other: Seq<Seq<char>>|
                other != texts(labels@) ==> #[trigger] final(self).value(other) == old(self).value(
                    other,
                ),
    {
        let ghost before = self.entries@;
        let ghost key = texts(labels@);
        match self.find(&labels) {
            Some(i) => {
                let count: u64 = self.entries[i].count.wrapping_add(n);
                self.entries[i].count = count;
                proof {
                    lemma_skip_others(before, i as int, key);
                    lemma_skip_others(self.entries@, i as int, key);
                    assert(old(self).counted()[i as int] == key);
                    assert(self.counted() =~= old(self).counted());
                }
            },
            None => {
                self.entries.push(LabelledCount { labels, count: n });
                proof {
                    lemma_skip_others(before, before.len() as int, key);
                    lemma_skip_others(self.entries@, before.len() as int, key);
                    assert(self.counted() =~= old(self).counted().push(key));
                }
            },
        }
        proof {
            assert forall|other: Seq<Seq<char>>| other != key implies #[trigger] self.value(other)
                == first_count(before, other) by {
                lemma_others_unchanged(before, self.entries@, key, other);
            }
        }
    }
}

impl PacketCounters {
    /// Nothing was counted yet.
    pub fn new() -> (r: Self)
        ensures
            r.packets_received == 0,
            r.packets_deduped == 0,
            r.packets_forwarded == 0,
            r.packets_forward_failed == 0,
            r.routing_drop == 0,
            forall|labels: Seq<Seq<char>>| #[trigger] r.routing_send.value(labels) == 0,
            forall|labels: Seq<Seq<char>>| #[trigger] r.packets_by_source.value(labels) == 0,
    {
        PacketCounters {
            packets_received: 0,
            packets_deduped: 0,
            packets_forwarded: 0,
            packets_forward_failed: 0,
            routing_drop: 0,
            routing_send: LabelCounts::new(),
            packets_by_source: LabelCounts::new(),
        }
    }
}

/// Counts a packet that could not be routed.
pub fn inc_routing_drop(counters: &mut PacketCounters)
    ensures
        *final(counters) == (PacketCounters {
            routing_drop: saturated_sum(old(counters).routing_drop, 1),
            ..*old(counters)
        }),
{
    counters.routing_drop = counters.routing_drop.saturating_add(1);
}

/// Counts a packet that was put into the queue with this label.
pub fn inc_routing_send(counters: &mut PacketCounters, queue_label: &str)
    ensures
        *final(counters) == (PacketCounters {
            routing_send: final(counters).routing_send,
            ..*old(counters)
        }),
        final(counters).routing_send.value(seq![queue_label@]) == old(counters).routing_send.value(
            seq![queue_label@],
        ).wrapping_add(1),
        forall|other: Seq<Seq<char>>|
            other != seq![queue_label@] ==> #[trigger] final(counters).routing_send.value(other)
                == old(counters).routing_send.value(other),
{
    let mut labels: Vec<String> = Vec::new();
    labels.push(queue_label.to_owned());
    assert(texts(labels@) =~= seq![queue_label@]);
    counters.routing_send.inc_by(labels, 1);
}

/// Counts received packets.
pub fn inc_packets_received(counters: &mut PacketCounters, count: u64)
    ensures
        *final(counters) == (PacketCounters {
            packets_received: saturated_sum(old(counters).packets_received, count),
            ..*old(counters)
        }),
{
    counters.packets_received = counters.packets_received.saturating_add(count);
}

/// Counts packets that were dropped as duplicates.
pub fn inc_packets_deduped(counters: &mut PacketCounters, count: u64)
    ensures
        *final(counters) == (PacketCounters {
            packets_deduped: saturated_sum(old(counters).packets_deduped, count),
            ..*old(counters)
        }),
{
    counters.packets_deduped = counters.packets_deduped.saturating_add(count);
}

/// Counts forwarded packets.
pub fn inc_packets_forwarded(counters: &mut PacketCounters, count: u64)
    ensures
        *final(counters) == (PacketCounters {
            packets_forwarded: saturated_sum(old(counters).packets_forwarded, count),
            ..*old(counters)
        }),
{
    counters.packets_forwarded = counters.packets_forwarded.saturating_add(count);
}

/// Counts packets that could not be forwarded.
pub fn inc_packets_forward_failed(counters: &mut PacketCounters, count: u64)
    ensures
        *final(counters) == (PacketCounters {
            packets_forward_failed: saturated_sum(old(counters).packets_forward_failed, count),
            ..*old(counters)
        }),
{
    counters.packets_forward_failed = counters.packets_forward_failed.saturating_add(count);
}

/// Counts packets of a source address with a status.
pub fn inc_packets_by_source(counters: &mut PacketCounters, addr: &str, status: &str, count: u64)
    ensures
        *final(counters) == (PacketCounters {
            packets_by_source: final(counters).packets_by_source,
            ..*old(counters)
        }),
        final(counters).packets_by_source.value(seq![addr@, status@])
            == old(counters).packets_by_source.value(seq![addr@, status@]).wrapping_add(count),
        forall|other: Seq<Seq<char>>|
            other != seq![addr@, status@] ==> #[trigger] final(counters).packets_by_source.value(
                other,
            ) == old(counters).packets_by_source.value(other),
{
    let mut labels: Vec<String> = Vec::new();
    labels.push(addr.to_owned());
    labels.push(status.to_owned());
    assert(texts(labels@) =~= seq![addr@, status@]);
    counters.packets_by_source.inc_by(labels, count);
}

} // verus!
