//! A network that loses messages.

use vstd::prelude::*;
use crate::consensus::tick::random_in;

verus! {

/// The loss rate at which every message is lost; a lower rate is a part of it.
pub const FULL_LOSS: u64 = 9_007_199_254_740_992;

/// A simulated network.
#[derive(Debug)]
pub struct NetworkSim {
    partitions: Vec<(u64, u64)>,
    latency_ms: u64,
    loss_rate: u64,
}

/// The state of a simulated network.
#[verifier::ext_equal]
pub struct NetworkView {
    /// The links, each from one node to another, that carry nothing.
    pub partitions: Set<(u64, u64)>,
    /// How long a message takes.
    pub latency_ms: u64,
    /// How many of `FULL_LOSS` messages are lost.
    pub loss_rate: u64,
}

/// A network without failures.
pub open spec fn sound_network() -> NetworkView {
    NetworkView { partitions: Set::empty(), latency_ms: 0, loss_rate: 0 }
}

/// Both links between two nodes.
pub open spec fn both_ways(a: u64, b: u64) -> Set<(u64, u64)> {
    set![(a, b), (b, a)]
}

/// All links between a node and some others.
pub open spec fn links_of(node: u64, nodes: Seq<u64>) -> Set<(u64, u64)> {
    Set::new(
        |link: (u64, u64)|
            link.0 != link.1 && (link.0 == node && nodes.contains(link.1) || link.1 == node
                && nodes.contains(link.0)),
    )
}

/// A message is delivered when the given number, one of `FULL_LOSS` from zero
/// on, is drawn for it.
pub open spec fn delivered(net: NetworkView, from: u64, to: u64, draw: u64) -> bool {
    !net.partitions.contains((from, to)) && draw >= net.loss_rate
}

/// Nothing crosses a partition, whatever is drawn.
pub proof fn law_partitions_hold(net: NetworkView, from: u64, to: u64, draw: u64)
    requires
        net.partitions.contains((from, to)),
    ensures
        !delivered(net, from, to, draw),
{
}

/// A node that is cut off from all others exchanges nothing with them, while
/// the links between the others are as they were.
pub proof fn law_isolation(net: NetworkView, node: u64, nodes: Seq<u64>, a: u64, b: u64, draw: u64)
    requires
        nodes.contains(a),
        nodes.contains(b),
        a != b,
    ensures
        ({
            let cut = NetworkView {
                partitions: net.partitions.union(links_of(node, nodes)),
                ..net
            };
            if a == node || b == node {
                !delivered(cut, a, b, draw)
            } else {
                delivered(cut, a, b, draw) == delivered(net, a, b, draw)
            }
        }),
{
}

/// How far a delay may be off, a fifth of the latency.
pub open spec fn jitter_of(latency_ms: u64) -> int {
    latency_ms as int / 5
}

/// The delay of a message for which the given number is drawn.
pub open spec fn delayed(net: NetworkView, draw: u64) -> int {
    net.latency_ms - jitter_of(net.latency_ms) + draw
}

impl View for NetworkSim {
    type V = NetworkView;

    closed spec fn view(&self) -> NetworkView {
        NetworkView {
            partitions: self.partitions@.to_set(),
            latency_ms: self.latency_ms,
            loss_rate: self.loss_rate,
        }
    }
}

impl NetworkSim {
    /// Every link that carries nothing is listed once, and at most all messages
    /// are lost.
    pub closed spec fn well_formed(&self) -> bool {
        self.partitions@.no_duplicates() && self.loss_rate <= FULL_LOSS
    }

    pub fn new() -> (r: Self)
        ensures
            r.well_formed(),
            r@ == sound_network(),
    {
        let r = NetworkSim { partitions: Vec::new(), latency_ms: 0, loss_rate: 0 };
        assert(r@.partitions =~= Set::<(u64, u64)>::empty());
        r
    }

    /// The place of a link.
    fn position(&self, from: u64, to: u64) -> (r: Option<usize>)
        ensures
            match r {
                Some(i) => i < self.partitions@.len() && self.partitions@[i as int] == (from, to),
                None => !self@.partitions.contains((from, to)),
            },
    {
        let mut i: usize = 0;
        while i < self.partitions.len()
            invariant
                i <= self.partitions.len(),
                forall|j: int| 0 <= j < i ==> #[trigger] self.partitions@[j] != (from, to),
            decreases self.partitions.len() - i,
        {
            let (a, b): (u64, u64) = self.partitions[i];
            if a == from && b == to {
                return Some(i);
            }
            i += 1;
        }
        None
    }

    /// Cuts the link from one node to another.
    pub fn partition(&mut self, from: u64, to: u64)
        requires
            old(self).well_formed(),
        ensures
            final(self).well_formed(),
            final(self)@ == (NetworkView {
                partitions: old(self)@.partitions.insert((from, to)),
                ..old(self)@
            }),
    {
        match self.position(from, to) {
            Some(i) => {
                assert(self.partitions@[i as int] == (from, to));
                assert(self@.partitions =~= old(self)@.partitions.insert((from, to)));
            },
            None => {
                let ghost before = self.partitions@;
                self.partitions.push((from, to));
                proof {
                    assert(!before.contains((from, to)));
                    assert forall|x: (u64, u64)| self.partitions@.contains(x) == (before.contains(x)
                        || x == (from, to)) by {
                        if before.contains(x) {
                            let j = before.index_of(x);
                            assert(self.partitions@[j] == x);
                        }
                        assert(self.partitions@[before.len() as int] == (from, to));
                        if self.partitions@.contains(x) && x != (from, to) {
                            let j = self.partitions@.index_of(x);
                            assert(before[j] == x);
                        }
                    }
                    assert(self@.partitions =~= old(self)@.partitions.insert((from, to)));
                }
            },
        }
    }

    /// Cuts both links between two nodes.
    pub fn partition_bidirectional(&mut self, a: u64, b: u64)
        requires
            old(self).well_formed(),
        ensures
            final(self).well_formed(),
            final(self)@ == (NetworkView {
                partitions: old(self)@.partitions.union(both_ways(a, b)),
                ..old(self)@
            }),
    {
        self.partition(a, b);
        self.partition(b, a);
        assert(self@.partitions =~= old(self)@.partitions.union(both_ways(a, b)));
    }

    /// Cuts a node off from all others.
    pub fn isolate(&mut self, node: u64, all_nodes: &[u64])
        requires
            old(self).well_formed(),
        ensures
            final(self).well_formed(),
            final(self)@ == (NetworkView {
                partitions: old(self)@.partitions.union(links_of(node, all_nodes@)),
                ..old(self)@
            }),
    {
        let ghost before = self@;
        let mut i: usize = 0;
        assert(before.partitions.union(links_of(node, all_nodes@.take(0)))
            =~= before.partitions);
        while i < all_nodes.len()
            invariant
                i <= all_nodes@.len(),
                self.well_formed(),
                self@ == (NetworkView {
                    partitions: before.partitions.union(
                        links_of(node, all_nodes@.take(i as int)),
                    ),
                    ..before
                }),
            decreases all_nodes.len() - i,
        {
            let other: u64 = all_nodes[i];
            let ghost done = all_nodes@.take(i as int);
            if other != node {
                self.partition(node, other);
                self.partition(other, node);
            }
            proof {
                let more = all_nodes@.take(i + 1);
                assert(more =~= done.push(other));
                assert forall|x: u64| #[trigger] more.contains(x) == (done.contains(x) || x
                    == other) by {
                    if done.contains(x) {
                        let j = done.index_of(x);
                        assert(more[j] == x);
                    }
                    assert(more[i as int] == other);
                    if more.contains(x) && x != other {
                        let j = more.index_of(x);
                        assert(done[j] == x);
                    }
                }
                assert(self@.partitions =~= before.partitions.union(links_of(node, more)));
            }
            i += 1;
        }
        assert(all_nodes@.take(i as int) =~= all_nodes@);
    }

    /// Mends all links.
    pub fn heal_all(&mut self)
        requires
            old(self).well_formed(),
        ensures
            final(self).well_formed(),
            final(self)@ == (NetworkView { partitions: Set::empty(), ..old(self)@ }),
    {
        self.partitions = Vec::new();
        assert(self@.partitions =~= Set::<(u64, u64)>::empty());
    }

    /// Mends a link.
    fn mend(&mut self, from: u64, to: u64)
        requires
            old(self).well_formed(),
        ensures
            final(self).well_formed(),
            final(self)@ == (NetworkView {
                partitions: old(self)@.partitions.remove((from, to)),
                ..old(self)@
            }),
    {
        match self.position(from, to) {
            Some(i) => {
                let ghost before = self.partitions@;
                let _ = self.partitions.remove(i);
                proof {
                    let after = self.partitions@;
                    assert forall|x: (u64, u64)| after.contains(x) == (before.contains(x) && x != (
                    from,
                    to,
                    )) by {
                        if before.contains(x) && x != (from, to) {
                            let j = before.index_of(x);
                            if j < i {
                                assert(after[j] == x);
                            } else {
                                assert(after[j - 1] == x);
                            }
                        }
                        if after.contains(x) {
                            let j = after.index_of(x);
                            if j < i {
                                assert(before[j] == x);
                            } else {
                                assert(before[j + 1] == x);
                            }
                        }
                    }
                    assert(self@.partitions =~= old(self)@.partitions.remove((from, to)));
                }
            },
            None => {
                assert(self@.partitions =~= old(self)@.partitions.remove((from, to)));
            },
        }
    }

    /// Mends both links between two nodes.
    pub fn heal(&mut self, a: u64, b: u64)
        requires
            old(self).well_formed(),
        ensures
            final(self).well_formed(),
            final(self)@ == (NetworkView {
                partitions: old(self)@.partitions.difference(both_ways(a, b)),
                ..old(self)@
            }),
    {
        self.mend(a, b);
        self.mend(b, a);
        assert(self@.partitions =~= old(self)@.partitions.difference(both_ways(a, b)));
    }

    /// Sets how long a message takes.
    pub fn set_latency(&mut self, ms: u64)
        ensures
            final(self).well_formed() == old(self).well_formed(),
            final(self)@ == (NetworkView { latency_ms: ms, ..old(self)@ }),
    {
        self.latency_ms = ms;
    }

    /// Sets how many of `FULL_LOSS` messages are lost, at most all.
    pub fn set_loss_rate(&mut self, rate: u64)
        requires
            old(self).well_formed(),
        ensures
            final(self).well_formed(),
            final(self)@ == (NetworkView {
                loss_rate: if rate < FULL_LOSS {
                    rate
                } else {
                    FULL_LOSS
                },
                ..old(self)@
            }),
    {
        self.loss_rate = if rate < FULL_LOSS {
            rate
        } else {
            FULL_LOSS
        };
    }

    /// Whether a message is delivered. Where messages are lost, chance decides.
    pub fn should_deliver(&self, from: u64, to: u64) -> (r: bool)
        requires
            self.well_formed(),
        ensures
            exists|draw: u64| draw < FULL_LOSS && r == #[trigger] delivered(self@, from, to, draw),
    {
        let draw: u64 = random_in(0, FULL_LOSS - 1);
        self.delivers(from, to, draw)
    }

    /// Whether a message is delivered for which the given number is drawn.
    pub fn delivers(&self, from: u64, to: u64, draw: u64) -> (r: bool)
        ensures
            r == delivered(self@, from, to, draw),
    {
        match self.position(from, to) {
            Some(i) => {
                assert(self.partitions@.contains(self.partitions@[i as int]));
                false
            },
            None => draw >= self.loss_rate,
        }
    }

    /// How long a message takes, off by chance by up to a fifth.
    pub fn delivery_delay(&self) -> (r: u64)
        requires
            self@.latency_ms + jitter_of(self@.latency_ms) <= u64::MAX,
        ensures
            self@.latency_ms - jitter_of(self@.latency_ms) <= r <= self@.latency_ms + jitter_of(
                self@.latency_ms,
            ),
            exists|draw: u64|
                draw <= 2 * jitter_of(self@.latency_ms) && r == #[trigger] delayed(self@, draw),
    {
        let jitter: u64 = self.latency_ms / 5;
        let draw: u64 = random_in(0, 2 * jitter);
        self.delay_with(draw)
    }

    /// How long a message takes for which the given number is drawn.
    pub fn delay_with(&self, draw: u64) -> (r: u64)
        requires
            self@.latency_ms + jitter_of(self@.latency_ms) <= u64::MAX,
            draw <= 2 * jitter_of(self@.latency_ms),
        ensures
            r == delayed(self@, draw),
    {
        self.latency_ms - self.latency_ms / 5 + draw
    }

    /// The number of links that are cut.
    pub fn partition_count(&self) -> (r: usize)
        requires
            self.well_formed(),
        ensures
            r == self@.partitions.len(),
    {
        proof {
            self.partitions@.unique_seq_to_set();
        }
        self.partitions.len()
    }

    /// Whether the link from one node to another is cut.
    pub fn is_partitioned(&self, from: u64, to: u64) -> (r: bool)
        ensures
            r == self@.partitions.contains((from, to)),
    {
        match self.position(from, to) {
            Some(i) => {
                assert(self.partitions@.contains(self.partitions@[i as int]));
                true
            },
            None => false,
        }
    }
}

impl Default for NetworkSim {
    fn default() -> (r: Self)
        ensures
            r.well_formed(),
            r@ == sound_network(),
    {
        NetworkSim::new()
    }
}

/// A message gets through exactly where its way is open and the draw is not below
/// the loss rate; without loss every message on an open way does.
pub proof fn law_open_ways_deliver(net: NetworkView, from: u64, to: u64, draw: u64)
    ensures
        delivered(net, from, to, draw) <==> !net.partitions.contains((from, to)) && net.loss_rate
            <= draw,
        net.loss_rate == 0 && !net.partitions.contains((from, to)) ==> delivered(
            net,
            from,
            to,
            draw,
        ),
        delivered(sound_network(), from, to, draw),
{
}

/// A partition between two nodes cuts both ways between them and no other, and
/// healing it opens both again.
pub proof fn law_partitions_can_be_healed(
    net: NetworkView,
    a: u64,
    b: u64,
    from: u64,
    to: u64,
)
    ensures
        ({
            let cut = net.partitions.union(both_ways(a, b));
            let healed = net.partitions.difference(both_ways(a, b));
            let between = (from == a && to == b) || (from == b && to == a);
            &&& cut.contains((from, to)) <==> net.partitions.contains((from, to)) || between
            &&& healed.contains((from, to)) <==> net.partitions.contains((from, to)) && !between
        }),
{
}

/// A delay differs from the latency by a fifth of it at most, either way.
pub proof fn law_delays_stay_near_the_latency(net: NetworkView, draw: u64)
    requires
        draw <= 2 * jitter_of(net.latency_ms),
    ensures
        5 * (delayed(net, draw) - net.latency_ms) <= net.latency_ms,
        5 * (net.latency_ms - delayed(net, draw)) <= net.latency_ms,
        delayed(net, jitter_of(net.latency_ms) as u64) == net.latency_ms,
        jitter_of(net.latency_ms) <= net.latency_ms / 5 < jitter_of(net.latency_ms) + 1,
{
}

} // verus!
