//! The metrics of a server, by subsystem, and the page that shows them.

use vstd::prelude::*;
use prometheus::{IntCounter, IntCounterVec, IntGauge, Opts, Registry, TextEncoder};
use crate::text::{decimal, joined, law_number_round_trip, number_of};
use crate::words::{same, signed_decimal};

verus! {

/// A number that is set.
#[derive(Debug, Clone, Copy, PartialEq, Eq, Structural)]
pub struct Gauge {
    pub value: i64,
}

impl Gauge {
    pub fn new() -> (r: Self)
        ensures
            r.value == 0,
    {
        Gauge { value: 0 }
    }

    pub fn get(&self) -> (r: i64)
        ensures
            r == self.value,
    {
        self.value
    }

    pub fn set(&mut self, value: i64)
        ensures
            final(self).value == value,
    {
        self.value = value;
    }
}

/// A number that counts up, and starts over behind the largest `u64`.
#[derive(Debug, Clone, Copy, PartialEq, Eq, Structural)]
pub struct Counter {
    pub value: u64,
}

/// What a counter shows after some more events.
pub open spec fn counted(value: u64, more: u64) -> u64 {
    ((value + more) % 0x1_0000_0000_0000_0000) as u64
}

impl Counter {
    pub fn new() -> (r: Self)
        ensures
            r.value == 0,
    {
        Counter { value: 0 }
    }

    pub fn get(&self) -> (r: u64)
        ensures
            r == self.value,
    {
        self.value
    }

    pub fn inc(&mut self)
        ensures
            final(self).value == counted(old(self).value, 1),
    {
        self.inc_by(1);
    }

    pub fn inc_by(&mut self, more: u64)
        ensures
            final(self).value == counted(old(self).value, more),
    {
        self.value = self.value.wrapping_add(more);
    }
}

/// The counter of one operation.
pub struct OpCount {
    pub op: String,
    pub count: Counter,
}

/// Counters by operation; each operation that was counted stands there once, in
/// the order in which they came.
pub struct OpCounters {
    counts: Vec<OpCount>,
}

pub open spec fn counts_view(counts: Seq<OpCount>) -> Seq<(Seq<char>, u64)> {
    Seq::new(counts.len(), |i: int| (counts[i].op@, counts[i].count.value))
}

/// The place of an operation among the counters.
pub open spec fn place_of_op(counts: Seq<(Seq<char>, u64)>, op: Seq<char>) -> Option<int>
    decreases counts.len(),
{
    if counts.len() == 0 {
        None
    } else if counts.last().0 == op {
        Some(counts.len() - 1)
    } else {
        place_of_op(counts.drop_last(), op)
    }
}

/// How often an operation was counted.
pub open spec fn count_of(counts: Seq<(Seq<char>, u64)>, op: Seq<char>) -> u64 {
    match place_of_op(counts, op) {
        Some(i) => counts[i].1,
        None => 0,
    }
}

/// The counters after some more events of an operation.
pub open spec fn counted_op(counts: Seq<(Seq<char>, u64)>, op: Seq<char>, more: u64) -> Seq<
    (Seq<char>, u64),
> {
    match place_of_op(counts, op) {
        Some(i) => counts.update(i, (op, counted(counts[i].1, more))),
        None => counts.push((op, more)),
    }
}

proof fn lemma_place_of_op(counts: Seq<(Seq<char>, u64)>, op: Seq<char>)
    ensures
        match place_of_op(counts, op) {
            Some(i) => 0 <= i < counts.len() && counts[i].0 == op,
            None => forall|i: int| 0 <= i < counts.len() ==> (#[trigger] counts[i]).0 != op,
        },
    decreases counts.len(),
{
    if counts.len() > 0 && counts.last().0 != op {
        lemma_place_of_op(counts.drop_last(), op);
        assert forall|i: int|
            0 <= i < counts.len() && place_of_op(counts, op) is None implies (
        #[trigger] counts[i]).0 != op by {
            if i < counts.len() - 1 {
                assert(counts.drop_last()[i] == counts[i]);
            }
        }
    }
}

proof fn lemma_place_after_update(
    counts: Seq<(Seq<char>, u64)>,
    at: int,
    value: u64,
    op: Seq<char>,
)
    requires
        0 <= at < counts.len(),
    ensures
        place_of_op(counts.update(at, (counts[at].0, value)), op) == place_of_op(counts, op),
    decreases counts.len(),
{
    let after = counts.update(at, (counts[at].0, value));
    if counts.last().0 != op {
        if at < counts.len() - 1 {
            lemma_place_after_update(counts.drop_last(), at, value, op);
            assert(after.drop_last() =~= counts.drop_last().update(at, (counts[at].0, value)));
        } else {
            assert(after.drop_last() =~= counts.drop_last());
        }
    }
}

/// The events of an operation are added to its own count, and the count of every
/// other operation stays.
pub proof fn law_operations_count_apart(
    counts: Seq<(Seq<char>, u64)>,
    op: Seq<char>,
    more: u64,
    other: Seq<char>,
)
    ensures
        count_of(counted_op(counts, op, more), op) == counted(count_of(counts, op), more),
        other != op ==> count_of(counted_op(counts, op, more), other) == count_of(counts, other),
{
    lemma_place_of_op(counts, op);
    lemma_place_of_op(counts, other);
    match place_of_op(counts, op) {
        Some(i) => {
            lemma_place_after_update(counts, i, counted(counts[i].1, more), op);
            lemma_place_after_update(counts, i, counted(counts[i].1, more), other);
        },
        None => {
            assert(counts.push((op, more)).drop_last() =~= counts);
        },
    }
}

/// Whether a text is a metric name: letters, digits, underscores and colons,
/// with no digit in front.
pub open spec fn metric_name(name: Seq<char>) -> bool {
    &&& name.len() > 0
    &&& !digit(name[0])
    &&& forall|i: int| 0 <= i < name.len() ==> #[trigger] letter(name[i]) || digit(name[i])
}

pub open spec fn digit(c: char) -> bool {
    '0' <= c <= '9'
}

pub open spec fn letter(c: char) -> bool {
    'a' <= c <= 'z' || 'A' <= c <= 'Z' || c == '_' || c == ':'
}

/// Whether a text is one line with nothing to escape, and not empty.
pub open spec fn plain_line(text: Seq<char>) -> bool {
    &&& text.len() > 0
    &&& forall|i: int| 0 <= i < text.len() ==> #[trigger] text[i] != '\\' && text[i] != '\n'
}

/// Whether a metric can be shown under a name and a description.
pub open spec fn described(name: Seq<char>, help: Seq<char>) -> bool {
    metric_name(name) && plain_line(help)
}

/// The lines that describe a metric.
pub open spec fn heading(name: Seq<char>, help: Seq<char>, kind: Seq<char>) -> Seq<char> {
    "# HELP "@ + name + " "@ + help + "\n# TYPE "@ + name + " "@ + kind + "\n"@
}

/// The number that stands for the value of a gauge that has no exact
/// floating-point number.
pub uninterp spec fn gauge_number(value: i64) -> Seq<char>;

/// The number that stands for the value of a counter that has no exact
/// floating-point number.
pub uninterp spec fn counter_number(value: u64) -> Seq<char>;

/// The lines of a counter with a label.
pub uninterp spec fn labelled_lines(
    name: Seq<char>,
    help: Seq<char>,
    label: Seq<char>,
    counts: Seq<(Seq<char>, u64)>,
) -> Seq<char>;

/// Numbers up to this size have an exact floating-point number.
pub const EXACT_NUMBERS: i64 = 9_007_199_254_740_992;

/// The value of a gauge as it is shown: in decimal, as far as floating-point
/// numbers are exact.
pub open spec fn gauge_shown(value: i64) -> Seq<char> {
    if -EXACT_NUMBERS <= value <= EXACT_NUMBERS {
        signed_decimal(value as int)
    } else {
        gauge_number(value)
    }
}

/// The value of a counter as it is shown: in decimal, as far as floating-point
/// numbers are exact.
pub open spec fn counter_shown(value: u64) -> Seq<char> {
    if value <= EXACT_NUMBERS {
        decimal(value as nat)
    } else {
        counter_number(value)
    }
}

/// The text of a gauge.
pub open spec fn gauge_text(name: Seq<char>, help: Seq<char>, value: i64) -> Seq<char> {
    heading(name, help, "gauge"@) + name + " "@ + gauge_shown(value) + "\n"@
}

/// The text of a counter.
pub open spec fn counter_text(name: Seq<char>, help: Seq<char>, value: u64) -> Seq<char> {
    heading(name, help, "counter"@) + name + " "@ + counter_shown(value) + "\n"@
}

/// `prometheus::TextEncoder::encode_to_string` on an `IntGauge` with a value: two
/// lines that describe the gauge, and one with its name and its value. The
/// encoder writes the nearest floating-point number: that is the value in
/// decimal where floating-point numbers are exact, and left to the name beyond.
/// `IntGauge::new` refuses a name or a description that `described` leaves
/// out.
#[verifier::external_body]
fn gauge_page(name: &str, help: &str, value: i64) -> (r: String)
    requires
        described(name@, help@),
    ensures
        r@ == heading(name@, help@, "gauge"@) + name@ + " "@ + (if -EXACT_NUMBERS <= value <= EXACT_NUMBERS {
            signed_decimal(value as int)
        } else {
            gauge_number(value)
        }) + "\n"@,
{
    let gauge = IntGauge::new(name, help).unwrap();
    gauge.set(value);
    let registry = Registry::new();
    registry.register(Box::new(gauge)).unwrap();
    TextEncoder::new().encode_to_string(&registry.gather()).unwrap()
}

/// `prometheus::TextEncoder::encode_to_string` on an `IntCounter` with a value:
/// two lines that describe the counter, and one with its name and its value. The
/// encoder writes the nearest floating-point number: that is the value in
/// decimal where floating-point numbers are exact, and left to the name beyond.
/// `IntCounter::new` refuses a name or a description that `described`
/// leaves out.
#[verifier::external_body]
fn counter_page(name: &str, help: &str, value: u64) -> (r: String)
    requires
        described(name@, help@),
    ensures
        r@ == heading(name@, help@, "counter"@) + name@ + " "@ + (if value <= EXACT_NUMBERS {
            decimal(value as nat)
        } else {
            counter_number(value)
        }) + "\n"@,
{
    let counter = IntCounter::new(name, help).unwrap();
    counter.inc_by(value);
    let registry = Registry::new();
    registry.register(Box::new(counter)).unwrap();
    TextEncoder::new().encode_to_string(&registry.gather()).unwrap()
}

/// `prometheus::TextEncoder::encode_to_string` on an `IntCounterVec` with one
/// label: two lines that describe the counter, and one for each value of the
/// label, by the label's value; nothing where there is none. How the values of
/// the label are ordered and escaped is left to the name.
#[verifier::external_body]
fn labelled_page(name: &str, help: &str, label: &str, counts: &Vec<OpCount>) -> (r: String)
    requires
        described(name@, help@),
        metric_name(label@) && !label@.contains(':'),
    ensures
        r@ == labelled_lines(name@, help@, label@, counts_view(counts@)),
        counts@.len() == 0 ==> r@.len() == 0,
{
    let counters = IntCounterVec::new(Opts::new(name, help), &[label]).unwrap();
    for c in counts.iter() {
        counters.with_label_values(&[c.op.as_str()]).inc_by(c.count.value);
    }
    let registry = Registry::new();
    registry.register(Box::new(counters)).unwrap();
    TextEncoder::new().encode_to_string(&registry.gather()).unwrap()
}

impl OpCounters {
    /// The operations with their counts.
    pub closed spec fn counts(self) -> Seq<(Seq<char>, u64)> {
        counts_view(self.counts@)
    }

    pub fn new() -> (r: Self)
        ensures
            r.counts() == Seq::<(Seq<char>, u64)>::empty(),
    {
        OpCounters { counts: Vec::new() }
    }

    /// The place of an operation.
    fn position(&self, op: &str) -> (r: Option<usize>)
        ensures
            match r {
                Some(i) => i < self.counts@.len() && place_of_op(self.counts(), op@) == Some(
                    i as int,
                ),
                None => place_of_op(self.counts(), op@) is None,
            },
    {
        let mut i: usize = self.counts.len();
        let ghost all = self.counts();
        assert(all.take(i as int) =~= all);
        while i > 0
            invariant
                all == self.counts(),
                i <= self.counts@.len(),
                place_of_op(all.take(i as int), op@) == place_of_op(all, op@),
            decreases i,
        {
            assert(all.take(i as int).drop_last() =~= all.take(i - 1));
            if same(self.counts[i - 1].op.as_str(), op) {
                return Some(i - 1);
            }
            i = i - 1;
        }
        None
    }

    /// How often an operation was counted.
    pub fn get(&self, op: &str) -> (r: u64)
        ensures
            r == count_of(self.counts(), op@),
    {
        match self.position(op) {
            Some(i) => self.counts[i].count.value,
            None => 0,
        }
    }

    /// Counts one more event of an operation.
    pub fn inc(&mut self, op: &str)
        ensures
            final(self).counts() == counted_op(old(self).counts(), op@, 1),
    {
        self.inc_by(op, 1);
    }

    /// Counts some more events of an operation.
    pub fn inc_by(&mut self, op: &str, more: u64)
        ensures
            final(self).counts() == counted_op(old(self).counts(), op@, more),
    {
        match self.position(op) {
            Some(i) => {
                let mut count: Counter = self.counts[i].count;
                count.inc_by(more);
                self.counts.set(i, OpCount { op: op.to_string(), count });
            },
            None => {
                self.counts.push(OpCount { op: op.to_string(), count: Counter { value: more } });
            },
        }
        assert(self.counts() =~= counted_op(old(self).counts(), op@, more));
    }
}

/// All metrics, by subsystem.
pub struct Metrics {
    /// Highest applied log index.
    pub raft_applied_index: Gauge,
    /// Number of nodes in the cluster.
    pub raft_cluster_size: Gauge,
    /// Highest committed log index.
    pub raft_commit_index: Gauge,
    /// Total elections started.
    pub raft_elections_total: Counter,
    /// Total elections won.
    pub raft_elections_won: Counter,
    /// Total leader changes observed.
    pub raft_leader_changes_total: Counter,
    /// Current leader node ID (0 if unknown).
    pub raft_leader_id: Gauge,
    /// Total proposals that failed.
    pub raft_proposals_failed: Counter,
    /// Total proposals submitted.
    pub raft_proposals_total: Counter,
    /// Current Raft role (0=Follower, 1=Candidate, 2=Leader).
    pub raft_role: Gauge,
    /// Total snapshots created.
    pub raft_snapshot_count: Counter,
    /// Current Raft term.
    pub raft_term: Gauge,
    /// Total compactions run.
    pub storage_compaction_total: Counter,
    /// Current MemTable size in bytes.
    pub storage_memtable_size_bytes: Gauge,
    /// Current number of SSTables.
    pub storage_sstable_count: Gauge,
    /// Total bytes written to WAL.
    pub storage_wal_bytes_written: Counter,
    /// Number of active leases.
    pub lease_active: Gauge,
    /// Total leases expired.
    pub lease_expirations_total: Counter,
    /// Total leases granted.
    pub lease_grants_total: Counter,
    /// Total leases revoked.
    pub lease_revokes_total: Counter,
    /// Number of active watchers.
    pub watch_active: Gauge,
    /// Total watch events published.
    pub watch_events_published: Counter,
    /// Total KV operations by type.
    pub kv_ops_total: OpCounters,
}

/// The texts of the metrics that hold times, which are measured elsewhere.
pub struct Timings {
    pub kv_op_latency: String,
    pub raft_heartbeat_latency: String,
    pub raft_replication_latency: String,
    pub storage_compaction_duration: String,
}

/// The metrics of reads and writes, in the order of their names.
pub open spec fn kv_section(m: Metrics, timings: Timings) -> Seq<char> {
    timings.kv_op_latency@ + labelled_lines(
        "kv_ops_total"@,
        "Total KV operations by type"@,
        "op"@,
        m.kv_ops_total.counts(),
    )
}

/// The metrics of leases, in the order of their names.
pub open spec fn lease_section(m: Metrics) -> Seq<char> {
    gauge_text(
        "lease_active"@,
        "Number of active leases"@,
        m.lease_active.value,
    ) + counter_text(
        "lease_expirations_total"@,
        "Total leases expired"@,
        m.lease_expirations_total.value,
    ) + counter_text(
        "lease_grants_total"@,
        "Total leases granted"@,
        m.lease_grants_total.value,
    ) + counter_text(
        "lease_revokes_total"@,
        "Total leases revoked"@,
        m.lease_revokes_total.value,
    )
}

/// The metrics of consensus, in the order of their names.
pub open spec fn raft_section(m: Metrics, timings: Timings) -> Seq<char> {
    gauge_text(
        "raft_applied_index"@,
        "Highest applied log index"@,
        m.raft_applied_index.value,
    ) + gauge_text(
        "raft_cluster_size"@,
        "Number of nodes in the cluster"@,
        m.raft_cluster_size.value,
    ) + gauge_text(
        "raft_commit_index"@,
        "Highest committed log index"@,
        m.raft_commit_index.value,
    ) + counter_text(
        "raft_elections_total"@,
        "Total elections started"@,
        m.raft_elections_total.value,
    ) + counter_text(
        "raft_elections_won"@,
        "Total elections won"@,
        m.raft_elections_won.value,
    ) + timings.raft_heartbeat_latency@ + counter_text(
        "raft_leader_changes_total"@,
        "Total leader changes observed"@,
        m.raft_leader_changes_total.value,
    ) + gauge_text(
        "raft_leader_id"@,
        "Current leader node ID (0 if unknown)"@,
        m.raft_leader_id.value,
    ) + counter_text(
        "raft_proposals_failed"@,
        "Total proposals that failed"@,
        m.raft_proposals_failed.value,
    ) + counter_text(
        "raft_proposals_total"@,
        "Total proposals submitted"@,
        m.raft_proposals_total.value,
    ) + timings.raft_replication_latency@ + gauge_text(
        "raft_role"@,
        "Current Raft role (0=Follower, 1=Candidate, 2=Leader)"@,
        m.raft_role.value,
    ) + counter_text(
        "raft_snapshot_count"@,
        "Total snapshots created"@,
        m.raft_snapshot_count.value,
    ) + gauge_text(
        "raft_term"@,
        "Current Raft term"@,
        m.raft_term.value,
    )
}

/// The metrics of storage, in the order of their names.
pub open spec fn storage_section(m: Metrics, timings: Timings) -> Seq<char> {
    timings.storage_compaction_duration@ + counter_text(
        "storage_compaction_total"@,
        "Total compactions run"@,
        m.storage_compaction_total.value,
    ) + gauge_text(
        "storage_memtable_size_bytes"@,
        "Current MemTable size in bytes"@,
        m.storage_memtable_size_bytes.value,
    ) + gauge_text(
        "storage_sstable_count"@,
        "Current number of SSTables"@,
        m.storage_sstable_count.value,
    ) + counter_text(
        "storage_wal_bytes_written"@,
        "Total bytes written to WAL"@,
        m.storage_wal_bytes_written.value,
    )
}

/// The metrics of watches, in the order of their names.
pub open spec fn watch_section(m: Metrics) -> Seq<char> {
    gauge_text(
        "watch_active"@,
        "Number of active watchers"@,
        m.watch_active.value,
    ) + counter_text(
        "watch_events_published"@,
        "Total watch events published"@,
        m.watch_events_published.value,
    )
}

/// The page that shows all metrics, in the order of their names.
pub open spec fn exposition(m: Metrics, timings: Timings) -> Seq<char> {
    kv_section(m, timings) + lease_section(m) + raft_section(m, timings) + storage_section(
        m,
        timings,
    ) + watch_section(m)
}

/// A text stands somewhere in another one.
pub open spec fn stands_in(page: Seq<char>, text: Seq<char>) -> bool {
    exists|i: int|
        0 <= i && i + text.len() <= page.len() && #[trigger] page.subrange(i, i + text.len()) == text
}

/// The line of a gauge: its name and its value, on a line of its own.
pub open spec fn gauge_line(name: Seq<char>, value: i64) -> Seq<char> {
    name + " "@ + gauge_shown(value) + "\n"@
}

/// The line of a counter: its name and its value, on a line of its own.
pub open spec fn counter_line(name: Seq<char>, value: u64) -> Seq<char> {
    name + " "@ + counter_shown(value) + "\n"@
}

/// What stands in a part stands in the whole.
proof fn lemma_stands_in_parts(text: Seq<char>)
    ensures
        forall|a: Seq<char>, b: Seq<char>|
            stands_in(a, text) || stands_in(b, text) ==> #[trigger] stands_in(a + b, text),
{
    assert forall|a: Seq<char>, b: Seq<char>|
        stands_in(a, text) || stands_in(b, text) implies #[trigger] stands_in(a + b, text) by {
        if stands_in(a, text) {
            let i = choose|i: int|
                0 <= i && i + text.len() <= a.len() && #[trigger] a.subrange(i, i + text.len())
                    == text;
            assert((a + b).subrange(i, i + text.len()) =~= text);
        } else {
            let i = choose|i: int|
                0 <= i && i + text.len() <= b.len() && #[trigger] b.subrange(i, i + text.len())
                    == text;
            let j = a.len() + i;
            assert((a + b).subrange(j, j + text.len()) =~= text);
        }
    }
}

proof fn lemma_gauge_line(name: Seq<char>, help: Seq<char>, value: i64)
    ensures
        stands_in(gauge_text(name, help, value), gauge_line(name, value)),
{
    let text = gauge_text(name, help, value);
    let line = gauge_line(name, value);
    let head = heading(name, help, "gauge"@);
    assert(text =~= head + line);
    let start = head.len() as int;
    assert(text.subrange(start, start + line.len()) =~= line);
}

proof fn lemma_counter_line(name: Seq<char>, help: Seq<char>, value: u64)
    ensures
        stands_in(counter_text(name, help, value), counter_line(name, value)),
{
    let text = counter_text(name, help, value);
    let line = counter_line(name, value);
    let head = heading(name, help, "counter"@);
    assert(text =~= head + line);
    let start = head.len() as int;
    assert(text.subrange(start, start + line.len()) =~= line);
}

/// What stands in a section stands on the page.
proof fn lemma_section_shown(m: Metrics, timings: Timings, text: Seq<char>)
    requires
        stands_in(lease_section(m), text) || stands_in(raft_section(m, timings), text)
            || stands_in(storage_section(m, timings), text) || stands_in(watch_section(m), text),
    ensures
        stands_in(exposition(m, timings), text),
{
    lemma_stands_in_parts(text);
    let a = kv_section(m, timings) + lease_section(m);
    let b = a + raft_section(m, timings);
    let c = b + storage_section(m, timings);
    assert(stands_in(a, text) || stands_in(raft_section(m, timings), text) || stands_in(
        storage_section(m, timings),
        text,
    ) || stands_in(watch_section(m), text));
    assert(stands_in(b, text) || stands_in(storage_section(m, timings), text) || stands_in(
        watch_section(m),
        text,
    ));
    assert(stands_in(c, text) || stands_in(watch_section(m), text));
}

/// The page shows every gauge and every counter by its name, with its value.
pub proof fn law_page_shows_all_values(m: Metrics, timings: Timings)
    ensures
        stands_in(exposition(m, timings), gauge_line("lease_active"@, m.lease_active.value)),
        stands_in(exposition(m, timings), counter_line("lease_expirations_total"@, m.lease_expirations_total.value)),
        stands_in(exposition(m, timings), counter_line("lease_grants_total"@, m.lease_grants_total.value)),
        stands_in(exposition(m, timings), counter_line("lease_revokes_total"@, m.lease_revokes_total.value)),
        stands_in(exposition(m, timings), gauge_line("raft_applied_index"@, m.raft_applied_index.value)),
        stands_in(exposition(m, timings), gauge_line("raft_cluster_size"@, m.raft_cluster_size.value)),
        stands_in(exposition(m, timings), gauge_line("raft_commit_index"@, m.raft_commit_index.value)),
        stands_in(exposition(m, timings), counter_line("raft_elections_total"@, m.raft_elections_total.value)),
        stands_in(exposition(m, timings), counter_line("raft_elections_won"@, m.raft_elections_won.value)),
        stands_in(exposition(m, timings), counter_line("raft_leader_changes_total"@, m.raft_leader_changes_total.value)),
        stands_in(exposition(m, timings), gauge_line("raft_leader_id"@, m.raft_leader_id.value)),
        stands_in(exposition(m, timings), counter_line("raft_proposals_failed"@, m.raft_proposals_failed.value)),
        stands_in(exposition(m, timings), counter_line("raft_proposals_total"@, m.raft_proposals_total.value)),
        stands_in(exposition(m, timings), gauge_line("raft_role"@, m.raft_role.value)),
        stands_in(exposition(m, timings), counter_line("raft_snapshot_count"@, m.raft_snapshot_count.value)),
        stands_in(exposition(m, timings), gauge_line("raft_term"@, m.raft_term.value)),
        stands_in(exposition(m, timings), counter_line("storage_compaction_total"@, m.storage_compaction_total.value)),
        stands_in(exposition(m, timings), gauge_line("storage_memtable_size_bytes"@, m.storage_memtable_size_bytes.value)),
        stands_in(exposition(m, timings), gauge_line("storage_sstable_count"@, m.storage_sstable_count.value)),
        stands_in(exposition(m, timings), counter_line("storage_wal_bytes_written"@, m.storage_wal_bytes_written.value)),
        stands_in(exposition(m, timings), gauge_line("watch_active"@, m.watch_active.value)),
        stands_in(exposition(m, timings), counter_line("watch_events_published"@, m.watch_events_published.value)),
{
    assert(stands_in(lease_section(m), gauge_line("lease_active"@, m.lease_active.value))) by {
        lemma_gauge_line("lease_active"@, "Number of active leases"@, m.lease_active.value);
        lemma_stands_in_parts(gauge_line("lease_active"@, m.lease_active.value));
    }
    lemma_section_shown(m, timings, gauge_line("lease_active"@, m.lease_active.value));
    assert(stands_in(lease_section(m), counter_line("lease_expirations_total"@, m.lease_expirations_total.value))) by {
        lemma_counter_line("lease_expirations_total"@, "Total leases expired"@, m.lease_expirations_total.value);
        lemma_stands_in_parts(counter_line("lease_expirations_total"@, m.lease_expirations_total.value));
    }
    lemma_section_shown(m, timings, counter_line("lease_expirations_total"@, m.lease_expirations_total.value));
    assert(stands_in(lease_section(m), counter_line("lease_grants_total"@, m.lease_grants_total.value))) by {
        lemma_counter_line("lease_grants_total"@, "Total leases granted"@, m.lease_grants_total.value);
        lemma_stands_in_parts(counter_line("lease_grants_total"@, m.lease_grants_total.value));
    }
    lemma_section_shown(m, timings, counter_line("lease_grants_total"@, m.lease_grants_total.value));
    assert(stands_in(lease_section(m), counter_line("lease_revokes_total"@, m.lease_revokes_total.value))) by {
        lemma_counter_line("lease_revokes_total"@, "Total leases revoked"@, m.lease_revokes_total.value);
        lemma_stands_in_parts(counter_line("lease_revokes_total"@, m.lease_revokes_total.value));
    }
    lemma_section_shown(m, timings, counter_line("lease_revokes_total"@, m.lease_revokes_total.value));
    assert(stands_in(raft_section(m, timings), gauge_line("raft_applied_index"@, m.raft_applied_index.value))) by {
        lemma_gauge_line("raft_applied_index"@, "Highest applied log index"@, m.raft_applied_index.value);
        lemma_stands_in_parts(gauge_line("raft_applied_index"@, m.raft_applied_index.value));
    }
    lemma_section_shown(m, timings, gauge_line("raft_applied_index"@, m.raft_applied_index.value));
    assert(stands_in(raft_section(m, timings), gauge_line("raft_cluster_size"@, m.raft_cluster_size.value))) by {
        lemma_gauge_line("raft_cluster_size"@, "Number of nodes in the cluster"@, m.raft_cluster_size.value);
        lemma_stands_in_parts(gauge_line("raft_cluster_size"@, m.raft_cluster_size.value));
    }
    lemma_section_shown(m, timings, gauge_line("raft_cluster_size"@, m.raft_cluster_size.value));
    assert(stands_in(raft_section(m, timings), gauge_line("raft_commit_index"@, m.raft_commit_index.value))) by {
        lemma_gauge_line("raft_commit_index"@, "Highest committed log index"@, m.raft_commit_index.value);
        lemma_stands_in_parts(gauge_line("raft_commit_index"@, m.raft_commit_index.value));
    }
    lemma_section_shown(m, timings, gauge_line("raft_commit_index"@, m.raft_commit_index.value));
    assert(stands_in(raft_section(m, timings), counter_line("raft_elections_total"@, m.raft_elections_total.value))) by {
        lemma_counter_line("raft_elections_total"@, "Total elections started"@, m.raft_elections_total.value);
        lemma_stands_in_parts(counter_line("raft_elections_total"@, m.raft_elections_total.value));
    }
    lemma_section_shown(m, timings, counter_line("raft_elections_total"@, m.raft_elections_total.value));
    assert(stands_in(raft_section(m, timings), counter_line("raft_elections_won"@, m.raft_elections_won.value))) by {
        lemma_counter_line("raft_elections_won"@, "Total elections won"@, m.raft_elections_won.value);
        lemma_stands_in_parts(counter_line("raft_elections_won"@, m.raft_elections_won.value));
    }
    lemma_section_shown(m, timings, counter_line("raft_elections_won"@, m.raft_elections_won.value));
    assert(stands_in(raft_section(m, timings), counter_line("raft_leader_changes_total"@, m.raft_leader_changes_total.value))) by {
        lemma_counter_line("raft_leader_changes_total"@, "Total leader changes observed"@, m.raft_leader_changes_total.value);
        lemma_stands_in_parts(counter_line("raft_leader_changes_total"@, m.raft_leader_changes_total.value));
    }
    lemma_section_shown(m, timings, counter_line("raft_leader_changes_total"@, m.raft_leader_changes_total.value));
    assert(stands_in(raft_section(m, timings), gauge_line("raft_leader_id"@, m.raft_leader_id.value))) by {
        lemma_gauge_line("raft_leader_id"@, "Current leader node ID (0 if unknown)"@, m.raft_leader_id.value);
        lemma_stands_in_parts(gauge_line("raft_leader_id"@, m.raft_leader_id.value));
    }
    lemma_section_shown(m, timings, gauge_line("raft_leader_id"@, m.raft_leader_id.value));
    assert(stands_in(raft_section(m, timings), counter_line("raft_proposals_failed"@, m.raft_proposals_failed.value))) by {
        lemma_counter_line("raft_proposals_failed"@, "Total proposals that failed"@, m.raft_proposals_failed.value);
        lemma_stands_in_parts(counter_line("raft_proposals_failed"@, m.raft_proposals_failed.value));
    }
    lemma_section_shown(m, timings, counter_line("raft_proposals_failed"@, m.raft_proposals_failed.value));
    assert(stands_in(raft_section(m, timings), counter_line("raft_proposals_total"@, m.raft_proposals_total.value))) by {
        lemma_counter_line("raft_proposals_total"@, "Total proposals submitted"@, m.raft_proposals_total.value);
        lemma_stands_in_parts(counter_line("raft_proposals_total"@, m.raft_proposals_total.value));
    }
    lemma_section_shown(m, timings, counter_line("raft_proposals_total"@, m.raft_proposals_total.value));
    assert(stands_in(raft_section(m, timings), gauge_line("raft_role"@, m.raft_role.value))) by {
        lemma_gauge_line("raft_role"@, "Current Raft role (0=Follower, 1=Candidate, 2=Leader)"@, m.raft_role.value);
        lemma_stands_in_parts(gauge_line("raft_role"@, m.raft_role.value));
    }
    lemma_section_shown(m, timings, gauge_line("raft_role"@, m.raft_role.value));
    assert(stands_in(raft_section(m, timings), counter_line("raft_snapshot_count"@, m.raft_snapshot_count.value))) by {
        lemma_counter_line("raft_snapshot_count"@, "Total snapshots created"@, m.raft_snapshot_count.value);
        lemma_stands_in_parts(counter_line("raft_snapshot_count"@, m.raft_snapshot_count.value));
    }
    lemma_section_shown(m, timings, counter_line("raft_snapshot_count"@, m.raft_snapshot_count.value));
    assert(stands_in(raft_section(m, timings), gauge_line("raft_term"@, m.raft_term.value))) by {
        lemma_gauge_line("raft_term"@, "Current Raft term"@, m.raft_term.value);
        lemma_stands_in_parts(gauge_line("raft_term"@, m.raft_term.value));
    }
    lemma_section_shown(m, timings, gauge_line("raft_term"@, m.raft_term.value));
    assert(stands_in(storage_section(m, timings), counter_line("storage_compaction_total"@, m.storage_compaction_total.value))) by {
        lemma_counter_line("storage_compaction_total"@, "Total compactions run"@, m.storage_compaction_total.value);
        lemma_stands_in_parts(counter_line("storage_compaction_total"@, m.storage_compaction_total.value));
    }
    lemma_section_shown(m, timings, counter_line("storage_compaction_total"@, m.storage_compaction_total.value));
    assert(stands_in(storage_section(m, timings), gauge_line("storage_memtable_size_bytes"@, m.storage_memtable_size_bytes.value))) by {
        lemma_gauge_line("storage_memtable_size_bytes"@, "Current MemTable size in bytes"@, m.storage_memtable_size_bytes.value);
        lemma_stands_in_parts(gauge_line("storage_memtable_size_bytes"@, m.storage_memtable_size_bytes.value));
    }
    lemma_section_shown(m, timings, gauge_line("storage_memtable_size_bytes"@, m.storage_memtable_size_bytes.value));
    assert(stands_in(storage_section(m, timings), gauge_line("storage_sstable_count"@, m.storage_sstable_count.value))) by {
        lemma_gauge_line("storage_sstable_count"@, "Current number of SSTables"@, m.storage_sstable_count.value);
        lemma_stands_in_parts(gauge_line("storage_sstable_count"@, m.storage_sstable_count.value));
    }
    lemma_section_shown(m, timings, gauge_line("storage_sstable_count"@, m.storage_sstable_count.value));
    assert(stands_in(storage_section(m, timings), counter_line("storage_wal_bytes_written"@, m.storage_wal_bytes_written.value))) by {
        lemma_counter_line("storage_wal_bytes_written"@, "Total bytes written to WAL"@, m.storage_wal_bytes_written.value);
        lemma_stands_in_parts(counter_line("storage_wal_bytes_written"@, m.storage_wal_bytes_written.value));
    }
    lemma_section_shown(m, timings, counter_line("storage_wal_bytes_written"@, m.storage_wal_bytes_written.value));
    assert(stands_in(watch_section(m), gauge_line("watch_active"@, m.watch_active.value))) by {
        lemma_gauge_line("watch_active"@, "Number of active watchers"@, m.watch_active.value);
        lemma_stands_in_parts(gauge_line("watch_active"@, m.watch_active.value));
    }
    lemma_section_shown(m, timings, gauge_line("watch_active"@, m.watch_active.value));
    assert(stands_in(watch_section(m), counter_line("watch_events_published"@, m.watch_events_published.value))) by {
        lemma_counter_line("watch_events_published"@, "Total watch events published"@, m.watch_events_published.value);
        lemma_stands_in_parts(counter_line("watch_events_published"@, m.watch_events_published.value));
    }
    lemma_section_shown(m, timings, counter_line("watch_events_published"@, m.watch_events_published.value));
}

/// A value that a page can show exactly is shown in decimal digits.
pub proof fn law_values_are_shown_in_digits(value: u64)
    requires
        value <= 0x20_0000_0000_0000,
    ensures
        counter_shown(value) == decimal(value as nat),
        gauge_shown(value as i64) == decimal(value as nat),
        number_of(counter_shown(value)) == Some(value),
{
    law_number_round_trip(value);
}

/// Counting adds up, in 64 bits.
pub proof fn law_counts_add(value: u64, a: u64, b: u64)
    ensures
        value + a <= u64::MAX ==> counted(value, a) == value + a,
        value + a + b <= u64::MAX ==> counted(counted(value, a), b) == value + a + b,
        counted(value, 0) == value,
{
}

proof fn lemma_lease_described()
    ensures
        described("lease_active"@, "Number of active leases"@),
        described("lease_expirations_total"@, "Total leases expired"@),
        described("lease_grants_total"@, "Total leases granted"@),
        described("lease_revokes_total"@, "Total leases revoked"@),
{
    assert(described("lease_active"@, "Number of active leases"@)) by {
        reveal_strlit("lease_active");
        reveal_strlit("Number of active leases");
    }
    assert(described("lease_expirations_total"@, "Total leases expired"@)) by {
        reveal_strlit("lease_expirations_total");
        reveal_strlit("Total leases expired");
    }
    assert(described("lease_grants_total"@, "Total leases granted"@)) by {
        reveal_strlit("lease_grants_total");
        reveal_strlit("Total leases granted");
    }
    assert(described("lease_revokes_total"@, "Total leases revoked"@)) by {
        reveal_strlit("lease_revokes_total");
        reveal_strlit("Total leases revoked");
    }
}

proof fn lemma_raft_described()
    ensures
        described("raft_applied_index"@, "Highest applied log index"@),
        described("raft_cluster_size"@, "Number of nodes in the cluster"@),
        described("raft_commit_index"@, "Highest committed log index"@),
        described("raft_elections_total"@, "Total elections started"@),
        described("raft_elections_won"@, "Total elections won"@),
        described("raft_leader_changes_total"@, "Total leader changes observed"@),
        described("raft_leader_id"@, "Current leader node ID (0 if unknown)"@),
        described("raft_proposals_failed"@, "Total proposals that failed"@),
        described("raft_proposals_total"@, "Total proposals submitted"@),
        described("raft_role"@, "Current Raft role (0=Follower, 1=Candidate, 2=Leader)"@),
        described("raft_snapshot_count"@, "Total snapshots created"@),
        described("raft_term"@, "Current Raft term"@),
{
    assert(described("raft_applied_index"@, "Highest applied log index"@)) by {
        reveal_strlit("raft_applied_index");
        reveal_strlit("Highest applied log index");
    }
    assert(described("raft_cluster_size"@, "Number of nodes in the cluster"@)) by {
        reveal_strlit("raft_cluster_size");
        reveal_strlit("Number of nodes in the cluster");
    }
    assert(described("raft_commit_index"@, "Highest committed log index"@)) by {
        reveal_strlit("raft_commit_index");
        reveal_strlit("Highest committed log index");
    }
    assert(described("raft_elections_total"@, "Total elections started"@)) by {
        reveal_strlit("raft_elections_total");
        reveal_strlit("Total elections started");
    }
    assert(described("raft_elections_won"@, "Total elections won"@)) by {
        reveal_strlit("raft_elections_won");
        reveal_strlit("Total elections won");
    }
    assert(described("raft_leader_changes_total"@, "Total leader changes observed"@)) by {
        reveal_strlit("raft_leader_changes_total");
        reveal_strlit("Total leader changes observed");
    }
    assert(described("raft_leader_id"@, "Current leader node ID (0 if unknown)"@)) by {
        reveal_strlit("raft_leader_id");
        reveal_strlit("Current leader node ID (0 if unknown)");
    }
    assert(described("raft_proposals_failed"@, "Total proposals that failed"@)) by {
        reveal_strlit("raft_proposals_failed");
        reveal_strlit("Total proposals that failed");
    }
    assert(described("raft_proposals_total"@, "Total proposals submitted"@)) by {
        reveal_strlit("raft_proposals_total");
        reveal_strlit("Total proposals submitted");
    }
    assert(described("raft_role"@, "Current Raft role (0=Follower, 1=Candidate, 2=Leader)"@)) by {
        reveal_strlit("raft_role");
        reveal_strlit("Current Raft role (0=Follower, 1=Candidate, 2=Leader)");
    }
    assert(described("raft_snapshot_count"@, "Total snapshots created"@)) by {
        reveal_strlit("raft_snapshot_count");
        reveal_strlit("Total snapshots created");
    }
    assert(described("raft_term"@, "Current Raft term"@)) by {
        reveal_strlit("raft_term");
        reveal_strlit("Current Raft term");
    }
}

proof fn lemma_storage_described()
    ensures
        described("storage_compaction_total"@, "Total compactions run"@),
        described("storage_memtable_size_bytes"@, "Current MemTable size in bytes"@),
        described("storage_sstable_count"@, "Current number of SSTables"@),
        described("storage_wal_bytes_written"@, "Total bytes written to WAL"@),
{
    assert(described("storage_compaction_total"@, "Total compactions run"@)) by {
        reveal_strlit("storage_compaction_total");
        reveal_strlit("Total compactions run");
    }
    assert(described("storage_memtable_size_bytes"@, "Current MemTable size in bytes"@)) by {
        reveal_strlit("storage_memtable_size_bytes");
        reveal_strlit("Current MemTable size in bytes");
    }
    assert(described("storage_sstable_count"@, "Current number of SSTables"@)) by {
        reveal_strlit("storage_sstable_count");
        reveal_strlit("Current number of SSTables");
    }
    assert(described("storage_wal_bytes_written"@, "Total bytes written to WAL"@)) by {
        reveal_strlit("storage_wal_bytes_written");
        reveal_strlit("Total bytes written to WAL");
    }
}

proof fn lemma_watch_described()
    ensures
        described("watch_active"@, "Number of active watchers"@),
        described("watch_events_published"@, "Total watch events published"@),
{
    assert(described("watch_active"@, "Number of active watchers"@)) by {
        reveal_strlit("watch_active");
        reveal_strlit("Number of active watchers");
    }
    assert(described("watch_events_published"@, "Total watch events published"@)) by {
        reveal_strlit("watch_events_published");
        reveal_strlit("Total watch events published");
    }
}

/// Metrics that have counted nothing.
pub open spec fn untouched(m: Metrics) -> bool {
    &&& m.raft_applied_index.value == 0
    &&& m.raft_cluster_size.value == 0
    &&& m.raft_commit_index.value == 0
    &&& m.raft_elections_total.value == 0
    &&& m.raft_elections_won.value == 0
    &&& m.raft_leader_changes_total.value == 0
    &&& m.raft_leader_id.value == 0
    &&& m.raft_proposals_failed.value == 0
    &&& m.raft_proposals_total.value == 0
    &&& m.raft_role.value == 0
    &&& m.raft_snapshot_count.value == 0
    &&& m.raft_term.value == 0
    &&& m.storage_compaction_total.value == 0
    &&& m.storage_memtable_size_bytes.value == 0
    &&& m.storage_sstable_count.value == 0
    &&& m.storage_wal_bytes_written.value == 0
    &&& m.lease_active.value == 0
    &&& m.lease_expirations_total.value == 0
    &&& m.lease_grants_total.value == 0
    &&& m.lease_revokes_total.value == 0
    &&& m.watch_active.value == 0
    &&& m.watch_events_published.value == 0
    &&& m.kv_ops_total.counts().len() == 0
}

impl Default for Metrics {
    fn default() -> (r: Self)
        ensures
            untouched(r),
    {
        Metrics::new()
    }
}

impl Metrics {
    pub fn new() -> (r: Self)
        ensures
            untouched(r),
    {
        Metrics {
            raft_applied_index: Gauge::new(),
            raft_cluster_size: Gauge::new(),
            raft_commit_index: Gauge::new(),
            raft_elections_total: Counter::new(),
            raft_elections_won: Counter::new(),
            raft_leader_changes_total: Counter::new(),
            raft_leader_id: Gauge::new(),
            raft_proposals_failed: Counter::new(),
            raft_proposals_total: Counter::new(),
            raft_role: Gauge::new(),
            raft_snapshot_count: Counter::new(),
            raft_term: Gauge::new(),
            storage_compaction_total: Counter::new(),
            storage_memtable_size_bytes: Gauge::new(),
            storage_sstable_count: Gauge::new(),
            storage_wal_bytes_written: Counter::new(),
            lease_active: Gauge::new(),
            lease_expirations_total: Counter::new(),
            lease_grants_total: Counter::new(),
            lease_revokes_total: Counter::new(),
            watch_active: Gauge::new(),
            watch_events_published: Counter::new(),
            kv_ops_total: OpCounters::new(),
        }
    }

    /// The metrics of reads and writes.
    fn kv_page(&self, timings: &Timings) -> (r: String)
        ensures
            r@ == kv_section(*self, *timings),
    {
        proof {
            reveal_strlit("kv_ops_total");
            reveal_strlit("Total KV operations by type");
            reveal_strlit("op");
        }
        let ops: String = labelled_page(
            "kv_ops_total",
            "Total KV operations by type",
            "op",
            &self.kv_ops_total.counts,
        );
        joined(timings.kv_op_latency.as_str(), ops.as_str())
    }

    /// The metrics of leases.
    fn lease_page(&self) -> (r: String)
        ensures
            r@ == lease_section(*self),
    {
        proof {
            lemma_lease_described();
        }
        let mut out: String = gauge_page(
                "lease_active",
                "Number of active leases",
                self.lease_active.value,
            );
        out = out.concat(
            counter_page(
                "lease_expirations_total",
                "Total leases expired",
                self.lease_expirations_total.value,
            ).as_str(),
        );
        out = out.concat(
            counter_page(
                "lease_grants_total",
                "Total leases granted",
                self.lease_grants_total.value,
            ).as_str(),
        );
        out = out.concat(
            counter_page(
                "lease_revokes_total",
                "Total leases revoked",
                self.lease_revokes_total.value,
            ).as_str(),
        );
        out
    }

    /// The metrics of consensus.
    fn raft_page(&self, timings: &Timings) -> (r: String)
        ensures
            r@ == raft_section(*self, *timings),
    {
        proof {
            lemma_raft_described();
        }
        let mut out: String = gauge_page(
                "raft_applied_index",
                "Highest applied log index",
                self.raft_applied_index.value,
            );
        out = out.concat(
            gauge_page(
                "raft_cluster_size",
                "Number of nodes in the cluster",
                self.raft_cluster_size.value,
            ).as_str(),
        );
        out = out.concat(
            gauge_page(
                "raft_commit_index",
                "Highest committed log index",
                self.raft_commit_index.value,
            ).as_str(),
        );
        out = out.concat(
            counter_page(
                "raft_elections_total",
                "Total elections started",
                self.raft_elections_total.value,
            ).as_str(),
        );
        out = out.concat(
            counter_page(
                "raft_elections_won",
                "Total elections won",
                self.raft_elections_won.value,
            ).as_str(),
        );
        out = out.concat(timings.raft_heartbeat_latency.as_str());
        out = out.concat(
            counter_page(
                "raft_leader_changes_total",
                "Total leader changes observed",
                self.raft_leader_changes_total.value,
            ).as_str(),
        );
        out = out.concat(
            gauge_page(
                "raft_leader_id",
                "Current leader node ID (0 if unknown)",
                self.raft_leader_id.value,
            ).as_str(),
        );
        out = out.concat(
            counter_page(
                "raft_proposals_failed",
                "Total proposals that failed",
                self.raft_proposals_failed.value,
            ).as_str(),
        );
        out = out.concat(
            counter_page(
                "raft_proposals_total",
                "Total proposals submitted",
                self.raft_proposals_total.value,
            ).as_str(),
        );
        out = out.concat(timings.raft_replication_latency.as_str());
        out = out.concat(
            gauge_page(
                "raft_role",
                "Current Raft role (0=Follower, 1=Candidate, 2=Leader)",
                self.raft_role.value,
            ).as_str(),
        );
        out = out.concat(
            counter_page(
                "raft_snapshot_count",
                "Total snapshots created",
                self.raft_snapshot_count.value,
            ).as_str(),
        );
        out = out.concat(
            gauge_page(
                "raft_term",
                "Current Raft term",
                self.raft_term.value,
            ).as_str(),
        );
        out
    }

    /// The metrics of storage.
    fn storage_page(&self, timings: &Timings) -> (r: String)
        ensures
            r@ == storage_section(*self, *timings),
    {
        proof {
            lemma_storage_described();
        }
        let mut out: String = timings.storage_compaction_duration.clone();
        out = out.concat(
            counter_page(
                "storage_compaction_total",
                "Total compactions run",
                self.storage_compaction_total.value,
            ).as_str(),
        );
        out = out.concat(
            gauge_page(
                "storage_memtable_size_bytes",
                "Current MemTable size in bytes",
                self.storage_memtable_size_bytes.value,
            ).as_str(),
        );
        out = out.concat(
            gauge_page(
                "storage_sstable_count",
                "Current number of SSTables",
                self.storage_sstable_count.value,
            ).as_str(),
        );
        out = out.concat(
            counter_page(
                "storage_wal_bytes_written",
                "Total bytes written to WAL",
                self.storage_wal_bytes_written.value,
            ).as_str(),
        );
        out
    }

    /// The metrics of watches.
    fn watch_page(&self) -> (r: String)
        ensures
            r@ == watch_section(*self),
    {
        proof {
            lemma_watch_described();
        }
        let mut out: String = gauge_page(
                "watch_active",
                "Number of active watchers",
                self.watch_active.value,
            );
        out = out.concat(
            counter_page(
                "watch_events_published",
                "Total watch events published",
                self.watch_events_published.value,
            ).as_str(),
        );
        out
    }

    /// All metrics as the text of their page.
    pub fn encode(&self, timings: &Timings) -> (r: String)
        ensures
            r@ == exposition(*self, *timings),
    {
        let out: String = self.kv_page(timings).concat(self.lease_page().as_str());
        let out: String = out.concat(self.raft_page(timings).as_str());
        let out: String = out.concat(self.storage_page(timings).as_str());
        out.concat(self.watch_page().as_str())
    }
}

} // verus!
