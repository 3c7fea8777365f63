//! The conversation with a watching client.

use vstd::prelude::*;
use crate::bytes::copy;
use crate::mvcc::store::{KeyValue, KeyValueView};
use crate::server::watch::{watches, WatchEvent, WatchEventType, WatchHub, WatcherView};
use crate::storage::stack::lemma_filter_contains;

verus! {

/// What arrives from a client.
#[derive(Debug)]
pub enum WatchInput {
    /// Asks for a watch on a key or a range.
    Create { key: Vec<u8>, range_end: Vec<u8>, start_revision: u64 },
    /// Asks to drop a watch.
    Cancel { watch_id: i64 },
    /// A request that asks for nothing.
    Empty,
    /// The stream of requests failed.
    Failed,
    /// The client has gone.
    Closed,
}

/// A change as it is sent to a client.
#[derive(Debug)]
pub struct Event {
    /// 0 for a write, 1 for a deletion.
    pub event_type: i32,
    pub kv: Option<KeyValue>,
    /// The value before the change.
    pub prev_kv: Option<KeyValue>,
}

/// What an event says.
pub struct EventView {
    pub event_type: i32,
    pub kv: Option<KeyValueView>,
    pub prev_kv: Option<KeyValueView>,
}

pub open spec fn pair_view(kv: Option<KeyValue>) -> Option<KeyValueView> {
    match kv {
        Some(p) => Some(p@),
        None => None,
    }
}

impl View for Event {
    type V = EventView;

    open spec fn view(&self) -> EventView {
        EventView {
            event_type: self.event_type,
            kv: pair_view(self.kv),
            prev_kv: pair_view(self.prev_kv),
        }
    }
}

/// What is sent to a client.
#[derive(Debug)]
pub struct WatchResponse {
    pub watch_id: i64,
    pub created: bool,
    pub canceled: bool,
    pub events: Vec<Event>,
}

/// What a response says.
#[verifier::ext_equal]
pub struct ResponseView {
    pub watch_id: i64,
    pub created: bool,
    pub canceled: bool,
    pub events: Seq<EventView>,
}

impl View for WatchResponse {
    type V = ResponseView;

    open spec fn view(&self) -> ResponseView {
        ResponseView {
            watch_id: self.watch_id,
            created: self.created,
            canceled: self.canceled,
            events: Seq::new(self.events@.len(), |i: int| self.events@[i]@),
        }
    }
}

/// What is to be done after an input: send a response, if there is one, and go
/// on listening or not.
#[derive(Debug)]
pub struct WatchStep {
    pub response: Option<WatchResponse>,
    pub open: bool,
}

/// A change as it is sent: its value carries both revisions, the value before
/// it none.
pub open spec fn event_sent(event: WatchEvent) -> EventView {
    EventView {
        event_type: match event.event_type {
            WatchEventType::Put => 0,
            WatchEventType::Delete => 1,
        },
        kv: Some(
            KeyValueView {
                key: event.key@,
                value: event.value@,
                create_revision: event.create_revision,
                mod_revision: event.mod_revision,
                lease_id: 0,
            },
        ),
        prev_kv: match event.prev_value {
            Some(v) => Some(
                KeyValueView {
                    key: event.key@,
                    value: v@,
                    create_revision: 0,
                    mod_revision: 0,
                    lease_id: 0,
                },
            ),
            None => None,
        },
    }
}

/// A change as it is sent.
pub fn event_of(event: &WatchEvent) -> (r: Event)
    ensures
        r@ == event_sent(*event),
{
    let event_type: i32 = match event.event_type {
        WatchEventType::Put => 0,
        WatchEventType::Delete => 1,
    };
    let prev_kv: Option<KeyValue> = match &event.prev_value {
        Some(v) => Some(
            KeyValue {
                key: copy(event.key.as_slice()),
                value: copy(v.as_slice()),
                create_revision: 0,
                mod_revision: 0,
                lease_id: 0,
            },
        ),
        None => None,
    };
    Event {
        event_type,
        kv: Some(
            KeyValue {
                key: copy(event.key.as_slice()),
                value: copy(event.value.as_slice()),
                create_revision: event.create_revision,
                mod_revision: event.mod_revision,
                lease_id: 0,
            },
        ),
        prev_kv,
    }
}

/// A number other than one.
pub open spec fn other_watch(id: i64) -> spec_fn(i64) -> bool {
    |x: i64| x != id
}

/// The watchers, the next number, a client's watches and the answer to the client
/// after a watch was asked for.
pub open spec fn watch_created(
    hub: Map<i64, WatcherView>,
    next: i64,
    active: Seq<i64>,
    watcher: WatcherView,
) -> (Map<i64, WatcherView>, i64, Seq<i64>, ResponseView) {
    (
        hub.insert(next, watcher),
        (next + 1) as i64,
        active.push(next),
        ResponseView { watch_id: next, created: true, canceled: false, events: Seq::empty() },
    )
}

/// The watchers, a client's watches and the answer to the client after a watch was
/// to be dropped.
pub open spec fn watch_cancelled(hub: Map<i64, WatcherView>, active: Seq<i64>, id: i64) -> (
    Map<i64, WatcherView>,
    Seq<i64>,
    ResponseView,
) {
    (
        hub.remove(id),
        active.filter(other_watch(id)),
        ResponseView {
            watch_id: id,
            created: false,
            canceled: hub.contains_key(id),
            events: Seq::empty(),
        },
    )
}

/// What a watcher is sent of a change.
pub open spec fn delivery(hub: Map<i64, WatcherView>, id: i64, event: WatchEvent) -> Option<
    ResponseView,
> {
    if hub.contains_key(id) && watches(hub[id], event.key@, event.mod_revision) {
        Some(
            ResponseView {
                watch_id: id,
                created: false,
                canceled: false,
                events: seq![event_sent(event)],
            },
        )
    } else {
        None
    }
}

/// A change of a watched key reaches its watcher from the watch on until it is
/// dropped, and the other watchers are not touched by either. The client is told of
/// both, and whether there was anything to drop.
pub proof fn law_watches_last_until_dropped(
    hub: Map<i64, WatcherView>,
    next: i64,
    active: Seq<i64>,
    watcher: WatcherView,
    event: WatchEvent,
    other: i64,
)
    requires
        next < i64::MAX,
        forall|id: i64| #[trigger] hub.contains_key(id) ==> id < next,
        !active.contains(next),
    ensures
        ({
            let (watched, after, mine, told) = watch_created(hub, next, active, watcher);
            let (dropped, rest, told_again) = watch_cancelled(watched, mine, next);
            &&& told.created && !told.canceled && told.watch_id == next && told.events.len() == 0
            &&& mine.contains(next)
            &&& after > next
            &&& delivery(watched, next, event) is Some <==> watches(
                watcher,
                event.key@,
                event.mod_revision,
            )
            &&& delivery(dropped, next, event) is None
            &&& !rest.contains(next)
            &&& told_again.canceled && !told_again.created && told_again.watch_id == next
            &&& !watch_cancelled(dropped, rest, next).2.canceled
            &&& other != next ==> delivery(watched, other, event) == delivery(hub, other, event)
                && delivery(dropped, other, event) == delivery(hub, other, event)
            &&& other != next && active.contains(other) ==> mine.contains(other) && rest.contains(
                other,
            )
        }),
{
    let mine = active.push(next);
    lemma_filter_contains(mine, other_watch(next));
    assert(mine[active.len() as int] == next);
    if active.contains(other) {
        assert(mine[active.index_of(other)] == other);
    }
}

/// What a watcher is sent tells the change: whether the key was written or
/// deleted, the key and its value, the revisions, and the value before.
pub proof fn law_deliveries_tell_the_change(
    hub: Map<i64, WatcherView>,
    id: i64,
    event: WatchEvent,
)
    requires
        delivery(hub, id, event) is Some,
    ensures
        ({
            let sent = delivery(hub, id, event)->0;
            let told = sent.events[0];
            &&& sent.watch_id == id && !sent.created && !sent.canceled
            &&& sent.events.len() == 1
            &&& told.event_type == 0 <==> event.event_type == WatchEventType::Put
            &&& told.event_type == 1 <==> event.event_type == WatchEventType::Delete
            &&& told.kv is Some
            &&& (told.kv->0).key == event.key@ && (told.kv->0).value == event.value@
            &&& (told.kv->0).mod_revision == event.mod_revision
            &&& (told.kv->0).create_revision == event.create_revision
            &&& told.prev_kv is Some <==> event.prev_value is Some
            &&& told.prev_kv is Some ==> (told.prev_kv->0).key == event.key@ && (
            told.prev_kv->0).value == (event.prev_value->0)@
        }),
{
}

/// The watches of one client.
#[derive(Debug)]
pub struct WatchRpcService {
    active: Vec<i64>,
}

impl View for WatchRpcService {
    type V = Seq<i64>;

    /// The numbers of the client's watches, in the order in which they were
    /// made.
    closed spec fn view(&self) -> Seq<i64> {
        self.active@
    }
}

impl WatchRpcService {
    /// A client without watches.
    pub fn new() -> (r: Self)
        ensures
            r@ == Seq::<i64>::empty(),
    {
        WatchRpcService { active: Vec::new() }
    }

    /// Answers what a client sends. A watch that is asked for is made and
    /// confirmed; one that is dropped is confirmed with whether it was there.
    /// The conversation ends when the stream fails or the client goes.
    pub fn watch(&mut self, hub: &mut WatchHub, input: WatchInput) -> (r: WatchStep)
        requires
            old(hub).well_formed(),
            old(hub).next() < i64::MAX,
        ensures
            final(hub).well_formed(),
            match input {
                WatchInput::Create { key, range_end, start_revision } => {
                    let id = old(hub).next();
                    &&& r.open
                    &&& final(hub).next() == id + 1
                    &&& final(hub)@ == old(hub)@.insert(
                        id,
                        WatcherView { key: key@, range_end: range_end@, start_revision },
                    )
                    &&& final(self)@ == old(self)@.push(id)
                    &&& r.response matches Some(s) && s@ == (ResponseView {
                        watch_id: id,
                        created: true,
                        canceled: false,
                        events: Seq::empty(),
                    })
                },
                WatchInput::Cancel { watch_id } => {
                    &&& r.open
                    &&& final(hub).next() == old(hub).next()
                    &&& final(hub)@ == old(hub)@.remove(watch_id)
                    &&& final(self)@ == old(self)@.filter(other_watch(watch_id))
                    &&& r.response matches Some(s) && s@ == (ResponseView {
                        watch_id,
                        created: false,
                        canceled: old(hub)@.contains_key(watch_id),
                        events: Seq::empty(),
                    })
                },
                _ => {
                    &&& r.open == (input is Empty)
                    &&& r.response is None
                    &&& *final(hub) == *old(hub)
                    &&& final(self)@ == old(self)@
                },
            },
            match input {
                WatchInput::Create { key, range_end, start_revision } => {
                    &&& r.response is Some
                    &&& (final(hub)@, final(hub).next(), final(self)@, (r.response->0)@)
                        == watch_created(
                        old(hub)@,
                        old(hub).next(),
                        old(self)@,
                        WatcherView { key: key@, range_end: range_end@, start_revision },
                    )
                },
                WatchInput::Cancel { watch_id } => {
                    &&& r.response is Some
                    &&& (final(hub)@, final(self)@, (r.response->0)@) == watch_cancelled(
                        old(hub)@,
                        old(self)@,
                        watch_id,
                    )
                },
                _ => true,
            },
    {
        match input {
            WatchInput::Create { key, range_end, start_revision } => {
                let watch_id: i64 = hub.create_watcher(key, range_end, start_revision);
                self.active.push(watch_id);
                WatchStep { response: Some(confirmation(watch_id, true, false)), open: true }
            },
            WatchInput::Cancel { watch_id } => {
                let canceled: bool = hub.cancel_watcher(watch_id);
                self.forget(watch_id);
                WatchStep { response: Some(confirmation(watch_id, false, canceled)), open: true }
            },
            WatchInput::Empty => WatchStep { response: None, open: true },
            WatchInput::Failed | WatchInput::Closed => WatchStep { response: None, open: false },
        }
    }

    /// Drops a number.
    fn forget(&mut self, watch_id: i64)
        ensures
            final(self)@ == old(self)@.filter(other_watch(watch_id)),
    {
        let mut kept: Vec<i64> = Vec::new();
        let mut i: usize = 0;
        while i < self.active.len()
            invariant
                i <= self.active.len(),
                self@ == old(self)@,
                kept@ == self@.take(i as int).filter(other_watch(watch_id)),
            decreases self.active.len() - i,
        {
            reveal(Seq::filter);
            assert(self@.take(i + 1).drop_last() =~= self@.take(i as int));
            if self.active[i] != watch_id {
                kept.push(self.active[i]);
            }
            i += 1;
        }
        assert(self@.take(i as int) =~= self@);
        self.active = kept;
    }

    /// The response that tells a client's watch of a change, if the watch is
    /// told of it.
    pub fn deliver(&self, hub: &WatchHub, watch_id: i64, event: &WatchEvent) -> (r: Option<
        WatchResponse,
    >)
        ensures
            if hub@.contains_key(watch_id) && watches(
                hub@[watch_id],
                event.key@,
                event.mod_revision,
            ) {
                r matches Some(s) && s@ == (ResponseView {
                    watch_id,
                    created: false,
                    canceled: false,
                    events: seq![event_sent(*event)],
                })
            } else {
                r is None
            },
            match delivery(hub@, watch_id, *event) {
                Some(sent) => r matches Some(s) && s@ == sent,
                None => r is None,
            },
    {
        if !hub.watcher_matches(watch_id, event) {
            return None;
        }
        let mut events: Vec<Event> = Vec::new();
        events.push(event_of(event));
        let s = WatchResponse { watch_id, created: false, canceled: false, events };
        assert(s@.events =~= seq![event_sent(*event)]);
        Some(s)
    }

    /// The numbers of the client's watches.
    pub fn active(&self) -> (r: &Vec<i64>)
        ensures
            r@ == self@,
    {
        &self.active
    }

    /// Drops all watches of a client that has gone.
    pub fn close(&mut self, hub: &mut WatchHub)
        requires
            old(hub).well_formed(),
        ensures
            final(hub).well_formed(),
            final(hub).next() == old(hub).next(),
            final(hub)@ == old(hub)@.remove_keys(old(self)@.to_set()),
            final(self)@ == Seq::<i64>::empty(),
    {
        let ghost before = hub@;
        let ghost all = self@;
        assert(before =~= before.remove_keys(all.take(0).to_set()));
        let mut i: usize = 0;
        while i < self.active.len()
            invariant
                i <= self.active.len(),
                self@ == all,
                hub.well_formed(),
                hub.next() == old(hub).next(),
                hub@ == before.remove_keys(all.take(i as int).to_set()),
            decreases self.active.len() - i,
        {
            hub.cancel_watcher(self.active[i]);
            proof {
                let done = all.take(i as int);
                let more = all.take(i + 1);
                assert(more =~= done.push(all[i as int]));
                assert forall|x: i64| more.to_set().contains(x) == (done.to_set().contains(x) || x
                    == all[i as int]) by {
                    if done.contains(x) {
                        let j = done.index_of(x);
                        assert(more[j] == x);
                    }
                    assert(more[i as int] == all[i as int]);
                    if more.contains(x) && x != all[i as int] {
                        let j = more.index_of(x);
                        assert(done[j] == x);
                    }
                }
                assert(before.remove_keys(done.to_set()).remove(all[i as int])
                    =~= before.remove_keys(more.to_set()));
            }
            i += 1;
        }
        assert(all.take(i as int) =~= all);
        self.active = Vec::new();
        assert(self@ =~= Seq::<i64>::empty());
    }
}

/// A response that confirms a request.
fn confirmation(watch_id: i64, created: bool, canceled: bool) -> (r: WatchResponse)
    ensures
        r@ == (ResponseView { watch_id, created, canceled, events: Seq::empty() }),
{
    let r = WatchResponse { watch_id, created, canceled, events: Vec::new() };
    assert(r@.events =~= Seq::<EventView>::empty());
    r
}

} // verus!
