//! Leases: keys that live as long as a client keeps renewing.

use vstd::prelude::*;
use crate::bytes::{copy, equal};
use crate::clock::{between, nanos_between, Clock, NANOS_PER_SECOND};

verus! {

/// The whole seconds of a lease that was granted or renewed at one reading, at
/// another.
pub open spec fn age(last_renewed: u128, now: u128) -> int {
    between(last_renewed, now) as int / NANOS_PER_SECOND as int
}

/// What is left of a time to live after some seconds; zero where it has run
/// out.
pub open spec fn remaining(granted_ttl: i64, elapsed: int) -> int {
    if granted_ttl - elapsed > 0 {
        granted_ttl - elapsed
    } else {
        0
    }
}

/// A lease, with the keys that are attached to it.
#[derive(Debug)]
pub struct Lease {
    pub id: i64,
    /// The time to live that was granted, in seconds.
    pub granted_ttl: i64,
    /// The reading of the clock when the lease was granted or last renewed.
    pub last_renewed: u128,
    /// The attached keys, each once.
    pub keys: Vec<Vec<u8>>,
}

/// What a lease says.
#[verifier::ext_equal]
pub struct LeaseView {
    pub granted_ttl: i64,
    pub last_renewed: u128,
    pub keys: Seq<Seq<u8>>,
}

pub open spec fn keys_of(keys: Seq<Vec<u8>>) -> Seq<Seq<u8>> {
    Seq::new(keys.len(), |i: int| keys[i]@)
}

impl View for Lease {
    type V = LeaseView;

    open spec fn view(&self) -> LeaseView {
        LeaseView {
            granted_ttl: self.granted_ttl,
            last_renewed: self.last_renewed,
            keys: keys_of(self.keys@),
        }
    }
}

/// A lease that is granted at a reading.
pub open spec fn new_lease(ttl: i64, now: u128) -> LeaseView {
    LeaseView { granted_ttl: ttl, last_renewed: now, keys: Seq::empty() }
}

/// The seconds that a lease has left at a reading.
pub open spec fn left(l: LeaseView, now: u128) -> int {
    remaining(l.granted_ttl, age(l.last_renewed, now))
}

/// A lease has run out at a reading.
pub open spec fn lapsed(l: LeaseView, now: u128) -> bool {
    left(l, now) == 0
}

/// A lease runs out when its time to live has passed since it was granted or
/// last renewed, and not before.
pub proof fn law_renewed_lease_lives(l: LeaseView, now: u128)
    requires
        now >= l.last_renewed,
    ensures
        !lapsed(l, now) <==> now < l.last_renewed + l.granted_ttl * NANOS_PER_SECOND,
{
    let past = (now - l.last_renewed) as int;
    let ttl = l.granted_ttl as int;
    assert(age(l.last_renewed, now) == past / 1_000_000_000);
    assert(ttl - past / 1_000_000_000 > 0 <==> past < ttl * 1_000_000_000);
}

/// The keys with one more, which is added where it is new.
pub open spec fn with_attached(keys: Seq<Seq<u8>>, key: Seq<u8>) -> Seq<Seq<u8>> {
    if keys.contains(key) {
        keys
    } else {
        keys.push(key)
    }
}

impl Lease {
    /// A lease that is granted at a reading, without keys.
    pub fn new(id: i64, ttl: i64, now: u128) -> (r: Self)
        ensures
            r.id == id,
            r@ == new_lease(ttl, now),
    {
        let r = Lease { id, granted_ttl: ttl, last_renewed: now, keys: Vec::new() };
        assert(r@.keys =~= Seq::<Seq<u8>>::empty());
        r
    }

    /// The seconds that the lease has left at a reading.
    pub fn remaining_ttl(&self, now: u128) -> (r: i64)
        ensures
            r == left(self@, now),
    {
        let seconds: u128 = nanos_between(self.last_renewed, now) / NANOS_PER_SECOND;
        let rest: i128 = self.granted_ttl as i128 - seconds as i128;
        if rest > 0 {
            rest as i64
        } else {
            0
        }
    }

    /// Whether the lease has run out at a reading.
    pub fn is_expired(&self, now: u128) -> (r: bool)
        ensures
            r == lapsed(self@, now),
    {
        self.remaining_ttl(now) == 0
    }

    /// Renews the lease at a reading.
    pub fn renew(&mut self, now: u128)
        ensures
            final(self).id == old(self).id,
            final(self)@ == (LeaseView { last_renewed: now, ..old(self)@ }),
    {
        self.last_renewed = now;
        assert(self@ =~= (LeaseView { last_renewed: now, ..old(self)@ }));
    }

    /// The place of a key.
    fn position(&self, key: &[u8]) -> (r: Option<usize>)
        ensures
            match r {
                Some(i) => i < self.keys@.len() && self.keys@[i as int]@ == key@,
                None => !self@.keys.contains(key@),
            },
    {
        let mut i: usize = 0;
        while i < self.keys.len()
            invariant
                i <= self.keys.len(),
                forall|j: int| 0 <= j < i ==> (#[trigger] self.keys@[j])@ != key@,
            decreases self.keys.len() - i,
        {
            if equal(self.keys[i].as_slice(), key) {
                return Some(i);
            }
            i += 1;
        }
        proof {
            if self@.keys.contains(key@) {
                let j = self@.keys.index_of(key@);
                assert(self.keys@[j]@ == key@);
            }
        }
        None
    }

    /// Attaches a key.
    pub fn attach_key(&mut self, key: Vec<u8>)
        requires
            old(self)@.keys.no_duplicates(),
        ensures
            final(self).id == old(self).id,
            final(self)@ == (LeaseView {
                keys: with_attached(old(self)@.keys, key@),
                ..old(self)@
            }),
            final(self)@.keys.no_duplicates(),
    {
        let ghost before = self@.keys;
        match self.position(key.as_slice()) {
            Some(i) => {
                assert(before[i as int] == key@);
            },
            None => {
                self.keys.push(key);
                assert(self@.keys =~= before.push(key@));
            },
        }
    }

    /// Detaches a key, if it is attached.
    pub fn detach_key(&mut self, key: &[u8])
        requires
            old(self)@.keys.no_duplicates(),
        ensures
            final(self).id == old(self).id,
            final(self)@ == (LeaseView {
                keys: old(self)@.keys.remove_value(key@),
                ..old(self)@
            }),
            final(self)@.keys.no_duplicates(),
    {
        let ghost before = self@.keys;
        match self.position(key) {
            Some(i) => {
                proof {
                    assert(before[i as int] == key@);
                    assert(before.index_of(key@) == i) by {
                        let j = before.index_of(key@);
                        assert(before[j] == key@);
                    }
                    before.index_of_first_ensures(key@);
                }
                let _ = self.keys.remove(i);
                assert(self@.keys =~= before.remove(i as int));
            },
            None => {
                proof {
                    before.index_of_first_ensures(key@);
                }
            },
        }
    }
}

/// What is told of a lease.
#[derive(Debug)]
pub struct LeaseInfo {
    pub id: i64,
    pub ttl: i64,
    pub granted_ttl: i64,
    pub keys: Vec<Vec<u8>>,
}

/// Why a lease operation fails.
#[derive(Debug, Clone, Copy, PartialEq, Eq, Structural)]
pub enum LeaseError {
    NotFound(i64),
    AlreadyExists(i64),
    Expired(i64),
    InvalidTtl,
}

/// All leases, in the order in which they were granted.
#[derive(Debug)]
pub struct LeaseManager {
    leases: Vec<Lease>,
    next_id: i64,
    clock: Clock,
}

/// The leases as numbers with what they say.
pub open spec fn leases_view(leases: Seq<Lease>) -> Seq<(i64, LeaseView)> {
    Seq::new(leases.len(), |i: int| (leases[i].id, leases[i]@))
}

/// The lease with this number.
pub open spec fn find_lease(ls: Seq<(i64, LeaseView)>, id: i64) -> Option<LeaseView>
    decreases ls.len(),
{
    if ls.len() == 0 {
        None
    } else if ls[0].0 == id {
        Some(ls[0].1)
    } else {
        find_lease(ls.drop_first(), id)
    }
}

/// The leases with that at the number `id` replaced.
pub open spec fn with_lease(ls: Seq<(i64, LeaseView)>, id: i64, v: LeaseView) -> Seq<(i64, LeaseView)> {
    Seq::new(
        ls.len(),
        |i: int|
            if ls[i].0 == id {
                (id, v)
            } else {
                ls[i]
            },
    )
}

/// Numbers are given once, all below the next one, and no lease has a key
/// twice.
pub open spec fn leases_sound(ls: Seq<(i64, LeaseView)>, next_id: i64) -> bool {
    &&& forall|i: int, j: int|
        0 <= i < j < ls.len() ==> (#[trigger] ls[i]).0 != (#[trigger] ls[j]).0
    &&& forall|i: int| 0 <= i < ls.len() ==> (#[trigger] ls[i]).0 < next_id
    &&& forall|i: int| 0 <= i < ls.len() ==> (#[trigger] ls[i]).1.keys.no_duplicates()
}

/// Of leases with different numbers, that at a place is the one with its number.
pub proof fn lemma_find_at(ls: Seq<(i64, LeaseView)>, i: int)
    requires
        0 <= i < ls.len(),
        forall|x: int, y: int|
            0 <= x < y < ls.len() ==> (#[trigger] ls[x]).0 != (#[trigger] ls[y]).0,
    ensures
        find_lease(ls, ls[i].0) == Some(ls[i].1),
    decreases ls.len(),
{
    if i > 0 {
        assert(ls[0].0 != ls[i].0);
        let rest = ls.drop_first();
        assert forall|x: int, y: int| 0 <= x < y < rest.len() implies (#[trigger] rest[x]).0 != (
        #[trigger] rest[y]).0 by {
            assert(ls[x + 1].0 != ls[y + 1].0);
        }
        lemma_find_at(rest, i - 1);
    }
}

/// A number that no lease has finds none.
proof fn lemma_find_none(ls: Seq<(i64, LeaseView)>, id: i64)
    requires
        forall|i: int| 0 <= i < ls.len() ==> (#[trigger] ls[i]).0 != id,
    ensures
        find_lease(ls, id) is None,
    decreases ls.len(),
{
    if ls.len() > 0 {
        assert(ls[0].0 != id);
        let rest = ls.drop_first();
        assert forall|i: int| 0 <= i < rest.len() implies (#[trigger] rest[i]).0 != id by {
            assert(ls[i + 1].0 != id);
        }
        lemma_find_none(rest, id);
    }
}

/// The leases with one of them renewed at a reading.
pub open spec fn renewed(ls: Seq<(i64, LeaseView)>, id: i64, now: u128) -> Seq<(i64, LeaseView)> {
    match find_lease(ls, id) {
        Some(l) => if lapsed(l, now) {
            ls
        } else {
            with_lease(ls, id, LeaseView { last_renewed: now, ..l })
        },
        None => ls,
    }
}

/// What a renewal at a reading gives: the time to live, unless the lease is not
/// there or has run out.
pub open spec fn renewal(ls: Seq<(i64, LeaseView)>, id: i64, now: u128) -> Result<i64, LeaseError> {
    match find_lease(ls, id) {
        None => Err(LeaseError::NotFound(id)),
        Some(l) => if lapsed(l, now) {
            Err(LeaseError::Expired(id))
        } else {
            Ok(l.granted_ttl)
        },
    }
}

/// The leases that have not run out at a reading, and those that have.
pub open spec fn split_lapsed(ls: Seq<(i64, LeaseView)>, now: u128) -> (
    Seq<(i64, LeaseView)>,
    Seq<(i64, LeaseView)>,
)
    decreases ls.len(),
{
    if ls.len() == 0 {
        (Seq::empty(), Seq::empty())
    } else {
        let (live, gone) = split_lapsed(ls.drop_last(), now);
        if lapsed(ls.last().1, now) {
            (live, gone.push(ls.last()))
        } else {
            (live.push(ls.last()), gone)
        }
    }
}

/// What a request for a lease gives: its number, the next free one where none
/// is asked for, and its time to live.
pub open spec fn grant_result(
    ls: Seq<(i64, LeaseView)>,
    next: i64,
    id: i64,
    ttl: i64,
) -> Result<(i64, i64), LeaseError> {
    if ttl <= 0 {
        Err(LeaseError::InvalidTtl)
    } else if id != 0 && find_lease(ls, id) is Some {
        Err(LeaseError::AlreadyExists(id))
    } else if id == 0 {
        Ok((next, ttl))
    } else {
        Ok((id, ttl))
    }
}

/// The leases after a request for one at a reading.
pub open spec fn granted(
    ls: Seq<(i64, LeaseView)>,
    next: i64,
    id: i64,
    ttl: i64,
    now: u128,
) -> Seq<(i64, LeaseView)> {
    match grant_result(ls, next, id, ttl) {
        Ok((lease_id, _)) => ls.push((lease_id, new_lease(ttl, now))),
        Err(_) => ls,
    }
}

/// The next free number after a request for a lease.
pub open spec fn next_after_grant(
    ls: Seq<(i64, LeaseView)>,
    next: i64,
    id: i64,
    ttl: i64,
) -> int {
    match grant_result(ls, next, id, ttl) {
        Ok((lease_id, _)) => if lease_id + 1 > next {
            lease_id + 1
        } else {
            next as int
        },
        Err(_) => next as int,
    }
}

/// A lease that was kept alive is still there when the leases that have run out
/// are taken out before its time to live has passed since.
pub proof fn law_kept_alive_stays(
    ls: Seq<(i64, LeaseView)>,
    next_id: i64,
    id: i64,
    renewed_at: u128,
    now: u128,
)
    requires
        leases_sound(ls, next_id),
        renewal(ls, id, renewed_at) is Ok,
        renewed_at <= now < renewed_at + renewal(ls, id, renewed_at)->Ok_0 * NANOS_PER_SECOND,
    ensures
        ({
            let l = find_lease(ls, id)->0;
            let kept = LeaseView { last_renewed: renewed_at, ..l };
            &&& find_lease(renewed(ls, id, renewed_at), id) == Some(kept)
            &&& !lapsed(kept, now)
            &&& find_lease(split_lapsed(renewed(ls, id, renewed_at), now).0, id) == Some(kept)
        }),
{
    let l = find_lease(ls, id)->0;
    let kept = LeaseView { last_renewed: renewed_at, ..l };
    let after = renewed(ls, id, renewed_at);
    let i = lemma_found_at(ls, id);
    law_renewed_lease_lives(kept, now);
    lemma_with_lease(ls, after, next_id, i, kept);
    lemma_find_at(after, i);
    lemma_split_sound(after, now, next_id);
    let live = split_lapsed(after, now).0;
    lemma_split_keeps(after, now, i);
    let j = live.index_of(after[i]);
    lemma_find_at(live, j);
}

/// Leases are told apart by whether their time has run out at a reading: those
/// whose time has run out are taken out, all others stay, and none is lost.
pub proof fn law_lapsed_leases_are_taken_out(ls: Seq<(i64, LeaseView)>, now: u128)
    requires
        forall|i: int| 0 <= i < ls.len() ==> (#[trigger] ls[i]).1.last_renewed <= now,
    ensures
        forall|p: (i64, LeaseView)| #[trigger]
            split_lapsed(ls, now).0.contains(p) <==> ls.contains(p) && now < p.1.last_renewed
                + p.1.granted_ttl * 1_000_000_000,
        forall|p: (i64, LeaseView)| #[trigger]
            split_lapsed(ls, now).1.contains(p) <==> ls.contains(p) && now >= p.1.last_renewed
                + p.1.granted_ttl * 1_000_000_000,
        split_lapsed(ls, now).0.len() + split_lapsed(ls, now).1.len() == ls.len(),
    decreases ls.len(),
{
    if ls.len() > 0 {
        let rest = ls.drop_last();
        let last = ls.last();
        assert forall|i: int| 0 <= i < rest.len() implies (#[trigger] rest[i]).1.last_renewed
            <= now by {
            assert(rest[i] == ls[i]);
        }
        assert(ls[ls.len() - 1] == last);
        law_lapsed_leases_are_taken_out(rest, now);
        law_renewed_lease_lives(last.1, now);
        let (live, gone) = split_lapsed(rest, now);
        assert forall|p: (i64, LeaseView)| ls.contains(p) == (rest.contains(p) || p == last) by {
            lemma_contains_last(ls, p);
        }
        assert forall|p: (i64, LeaseView)| #[trigger]
            live.push(last).contains(p) == (live.contains(p) || p == last) by {
            lemma_contains_last(live.push(last), p);
            assert(live.push(last).drop_last() =~= live);
        }
        assert forall|p: (i64, LeaseView)| #[trigger]
            gone.push(last).contains(p) == (gone.contains(p) || p == last) by {
            lemma_contains_last(gone.push(last), p);
            assert(gone.push(last).drop_last() =~= gone);
        }
    }
}

proof fn lemma_contains_last(ls: Seq<(i64, LeaseView)>, p: (i64, LeaseView))
    requires
        ls.len() > 0,
    ensures
        ls.contains(p) == (ls.drop_last().contains(p) || p == ls.last()),
{
    if ls.contains(p) {
        let i = ls.index_of(p);
        if i < ls.len() - 1 {
            assert(ls.drop_last()[i] == p);
        }
    }
    if ls.drop_last().contains(p) {
        assert(ls[ls.drop_last().index_of(p)] == p);
    }
    assert(ls[ls.len() - 1] == ls.last());
}

/// A lease is granted exactly for a positive time and under a number that no
/// lease has, or a new one where none is asked for. It then lasts from the reading
/// on, has no keys, and the other leases stay.
pub proof fn law_granted_leases_exist(
    ls: Seq<(i64, LeaseView)>,
    next: i64,
    id: i64,
    ttl: i64,
    now: u128,
)
    requires
        leases_sound(ls, next),
    ensures
        ({
            let result = grant_result(ls, next, id, ttl);
            let after = granted(ls, next, id, ttl, now);
            &&& result is Ok <==> ttl > 0 && (id == 0 || forall|i: int|
                0 <= i < ls.len() ==> (#[trigger] ls[i]).0 != id)
            &&& result is Err ==> after == ls && next_after_grant(ls, next, id, ttl) == next
            &&& ttl <= 0 ==> result == Err::<(i64, i64), LeaseError>(LeaseError::InvalidTtl)
            &&& ttl > 0 && result is Err ==> result == Err::<(i64, i64), LeaseError>(
                LeaseError::AlreadyExists(id),
            )
            &&& result matches Ok((lease_id, lease_ttl)) ==> {
                &&& lease_ttl == ttl
                &&& id != 0 ==> lease_id == id
                &&& find_lease(ls, lease_id) is None
                &&& find_lease(after, lease_id) == Some(
                    LeaseView { granted_ttl: ttl, last_renewed: now, keys: Seq::empty() },
                )
                &&& after.drop_last() == ls
                &&& lease_id < next_after_grant(ls, next, id, ttl)
            }
        }),
{
    let result = grant_result(ls, next, id, ttl);
    if find_lease(ls, id) is Some {
        let i = lemma_found_at(ls, id);
        assert(ls[i].0 == id);
    } else {
        lemma_not_found(ls, id);
    }
    if let Ok((lease_id, _)) = result {
        let after = granted(ls, next, id, ttl, now);
        if id == 0 {
            lemma_find_none(ls, lease_id);
        }
        assert forall|x: int, y: int| 0 <= x < y < after.len() implies (#[trigger] after[x]).0 != (
        #[trigger] after[y]).0 by {
            if y == ls.len() {
                lemma_not_found(ls, lease_id);
            }
        }
        lemma_find_at(after, ls.len() as int);
        assert(after.drop_last() =~= ls);
    }
}

/// A number under which no lease is found is that of none.
proof fn lemma_not_found(ls: Seq<(i64, LeaseView)>, id: i64)
    requires
        find_lease(ls, id) is None,
    ensures
        forall|i: int| 0 <= i < ls.len() ==> (#[trigger] ls[i]).0 != id,
    decreases ls.len(),
{
    if ls.len() > 0 {
        let rest = ls.drop_first();
        lemma_not_found(rest, id);
        assert forall|i: int| 0 <= i < ls.len() implies (#[trigger] ls[i]).0 != id by {
            if i > 0 {
                assert(rest[i - 1] == ls[i]);
            }
        }
    }
}

/// A lease can be kept alive exactly as long as its time has not run out. It then
/// has its whole time again from the reading on, and its keys; the other leases
/// stay.
pub proof fn law_living_leases_are_renewed(
    ls: Seq<(i64, LeaseView)>,
    next: i64,
    place: int,
    now: u128,
)
    requires
        leases_sound(ls, next),
        0 <= place < ls.len(),
        ls[place].1.last_renewed <= now,
    ensures
        ({
            let (id, l) = ls[place];
            let after = renewed(ls, id, now);
            let alive = now < l.last_renewed + l.granted_ttl * 1_000_000_000;
            &&& alive ==> renewal(ls, id, now) == Ok::<i64, LeaseError>(l.granted_ttl)
            &&& !alive ==> renewal(ls, id, now) == Err::<i64, LeaseError>(LeaseError::Expired(id))
            &&& !alive ==> after == ls
            &&& alive ==> after == ls.update(
                place,
                (
                    id,
                    LeaseView { granted_ttl: l.granted_ttl, last_renewed: now, keys: l.keys },
                ),
            )
            &&& alive_at(ls, id, now) == alive
        }),
{
    let (id, l) = ls[place];
    lemma_find_at(ls, place);
    law_renewed_lease_lives(l, now);
    let v = LeaseView { granted_ttl: l.granted_ttl, last_renewed: now, keys: l.keys };
    assert forall|i: int| 0 <= i < ls.len() && i != place implies (#[trigger] ls[i]).0 != id by {}
    assert(with_lease(ls, id, v) =~= ls.update(place, (id, v)));
}

/// The keys of a lease that is taken back, and the leases without it.
pub open spec fn revoked(
    ls: Seq<(i64, LeaseView)>,
    id: i64,
    keys: Seq<Seq<u8>>,
    after: Seq<(i64, LeaseView)>,
) -> bool {
    &&& find_lease(ls, id) matches Some(l) && keys == l.keys
    &&& exists|i: int|
        0 <= i < ls.len() && (#[trigger] ls[i]).0 == id && after == ls.remove(i)
}

/// A lease that is taken back is gone, with all the keys that were attached to it
/// handed out; the other leases stay.
pub proof fn law_revoked_leases_are_gone(
    ls: Seq<(i64, LeaseView)>,
    next: i64,
    place: int,
    keys: Seq<Seq<u8>>,
    after: Seq<(i64, LeaseView)>,
    p: (i64, LeaseView),
)
    requires
        leases_sound(ls, next),
        0 <= place < ls.len(),
        revoked(ls, ls[place].0, keys, after),
    ensures
        keys == ls[place].1.keys,
        after == ls.remove(place),
        after.contains(p) <==> ls.contains(p) && p.0 != ls[place].0,
{
    lemma_find_at(ls, place);
    let i = choose|i: int|
        0 <= i < ls.len() && (#[trigger] ls[i]).0 == ls[place].0 && after == ls.remove(i);
    assert(i == place);
    if after.contains(p) {
        let j = after.index_of(p);
        let k = if j < place {
            j
        } else {
            j + 1
        };
        assert(ls[k] == p);
    }
    if ls.contains(p) && p.0 != ls[place].0 {
        let k = ls.index_of(p);
        let j = if k < place {
            k
        } else {
            k - 1
        };
        assert(after[j] == p);
    }
}

/// A lease that is unknown cannot be kept alive.
pub proof fn law_unknown_leases_are_not_renewed(ls: Seq<(i64, LeaseView)>, id: i64, now: u128)
    requires
        forall|i: int| 0 <= i < ls.len() ==> (#[trigger] ls[i]).0 != id,
    ensures
        renewal(ls, id, now) == Err::<i64, LeaseError>(LeaseError::NotFound(id)),
        renewed(ls, id, now) == ls,
        !alive_at(ls, id, now),
{
    lemma_find_none(ls, id);
}

/// The time that a lease has left is counted in whole seconds and never below
/// zero; it is the granted time right after a renewal.
pub proof fn law_time_left_counts_down(l: LeaseView, now: u128)
    requires
        now >= l.last_renewed,
        l.granted_ttl >= 0,
    ensures
        0 <= left(l, now) <= l.granted_ttl,
        now - l.last_renewed < 1_000_000_000 ==> left(l, now) == l.granted_ttl,
        left(l, now) > 0 ==> left(l, now) - 1 < l.granted_ttl - (now - l.last_renewed)
            / 1_000_000_000 <= left(l, now),
        left(l, now) == 0 <==> now - l.last_renewed >= l.granted_ttl * 1_000_000_000,
{
    law_renewed_lease_lives(l, now);
}

/// A key is attached to the lease that is named: the lease then has it besides the
/// keys that it had, each once, and its time and the other leases stay.
pub proof fn law_attached_keys_are_held(
    ls: Seq<(i64, LeaseView)>,
    next: i64,
    place: int,
    key: Seq<u8>,
    other: Seq<u8>,
)
    requires
        leases_sound(ls, next),
        0 <= place < ls.len(),
    ensures
        ({
            let (id, l) = ls[place];
            let keys = with_attached(l.keys, key);
            let after = with_lease(ls, id, LeaseView { keys, ..l });
            &&& keys.contains(other) <==> l.keys.contains(other) || other == key
            &&& keys.no_duplicates()
            &&& after == ls.update(place, (id, LeaseView { keys, ..l }))
        }),
{
    let (id, l) = ls[place];
    let keys = with_attached(l.keys, key);
    assert forall|i: int| 0 <= i < ls.len() && i != place implies (#[trigger] ls[i]).0 != id by {}
    assert(with_lease(ls, id, LeaseView { keys, ..l }) =~= ls.update(
        place,
        (id, LeaseView { keys, ..l }),
    ));
    if !l.keys.contains(key) {
        if l.keys.contains(other) {
            assert(keys[l.keys.index_of(other)] == other);
        }
        assert(keys[l.keys.len() as int] == key);
        if keys.contains(other) && other != key {
            let i = keys.index_of(other);
            assert(l.keys[i] == other);
        }
        assert forall|i: int, j: int| 0 <= i < keys.len() && 0 <= j < keys.len() && i != j implies
            keys[i] != keys[j] by {
            if i == l.keys.len() {
                assert(l.keys[j] == keys[j]);
            } else if j == l.keys.len() {
                assert(l.keys[i] == keys[i]);
            }
        }
    }
}

/// The place of a lease that is found.
proof fn lemma_found_at(ls: Seq<(i64, LeaseView)>, id: i64) -> (i: int)
    requires
        find_lease(ls, id) is Some,
    ensures
        0 <= i < ls.len(),
        ls[i] == (id, find_lease(ls, id)->0),
    decreases ls.len(),
{
    if ls[0].0 == id {
        0
    } else {
        lemma_found_at(ls.drop_first(), id) + 1
    }
}

/// A lease that has not run out is not taken out.
proof fn lemma_split_keeps(ls: Seq<(i64, LeaseView)>, now: u128, i: int)
    requires
        0 <= i < ls.len(),
        !lapsed(ls[i].1, now),
    ensures
        split_lapsed(ls, now).0.contains(ls[i]),
    decreases ls.len(),
{
    let live = split_lapsed(ls, now).0;
    if i == ls.len() - 1 {
        assert(live[live.len() - 1] == ls[i]);
    } else {
        let rest = ls.drop_last();
        lemma_split_keeps(rest, now, i);
        let before = split_lapsed(rest, now).0;
        assert(live[before.index_of(ls[i])] == ls[i]);
    }
}

/// Expired leases with their keys, as they are handed out.
pub open spec fn expired_view(r: Seq<(i64, Vec<Vec<u8>>)>) -> Seq<(i64, Seq<Seq<u8>>)> {
    Seq::new(r.len(), |i: int| (r[i].0, keys_of(r[i].1@)))
}

pub open spec fn lease_keys(ls: Seq<(i64, LeaseView)>) -> Seq<(i64, Seq<Seq<u8>>)> {
    Seq::new(ls.len(), |i: int| (ls[i].0, ls[i].1.keys))
}

/// A lease is there at a reading and has not run out.
pub open spec fn alive_at(ls: Seq<(i64, LeaseView)>, id: i64, now: u128) -> bool {
    find_lease(ls, id) matches Some(l) && !lapsed(l, now)
}

/// What is told of a lease at a reading.
pub open spec fn info_at(
    ls: Seq<(i64, LeaseView)>,
    id: i64,
    now: u128,
    r: Result<LeaseInfo, LeaseError>,
) -> bool {
    match find_lease(ls, id) {
        None => r == Err::<LeaseInfo, LeaseError>(LeaseError::NotFound(id)),
        Some(l) => r matches Ok(info) && {
            &&& info.id == id
            &&& info.granted_ttl == l.granted_ttl
            &&& keys_of(info.keys@) == l.keys
            &&& info.ttl == left(l, now)
        },
    }
}

impl LeaseManager {
    /// The leases with their numbers, in the order in which they were granted.
    pub closed spec fn leases(&self) -> Seq<(i64, LeaseView)> {
        leases_view(self.leases@)
    }

    /// The number that the next lease without one gets.
    pub closed spec fn next(&self) -> i64 {
        self.next_id
    }

    pub open spec fn well_formed(&self) -> bool {
        leases_sound(self.leases(), self.next())
    }

    pub fn new() -> (r: Self)
        ensures
            r.well_formed(),
            r.leases() == Seq::<(i64, LeaseView)>::empty(),
            r.next() == 1,
    {
        let r = LeaseManager { leases: Vec::new(), next_id: 1, clock: Clock::new() };
        assert(r.leases() =~= Seq::<(i64, LeaseView)>::empty());
        r
    }

    /// The place of a lease.
    fn position(&self, id: i64) -> (r: Option<usize>)
        requires
            self.well_formed(),
        ensures
            match r {
                Some(i) => {
                    &&& i < self.leases@.len()
                    &&& self.leases@[i as int].id == id
                    &&& find_lease(self.leases(), id) == Some(self.leases@[i as int]@)
                },
                None => {
                    &&& find_lease(self.leases(), id) is None
                    &&& forall|i: int| 0 <= i < self.leases().len() ==> (
                    #[trigger] self.leases()[i]).0 != id
                },
            },
    {
        let ghost ls = self.leases();
        let mut i: usize = 0;
        while i < self.leases.len()
            invariant
                i <= self.leases.len(),
                ls == self.leases(),
                self.well_formed(),
                forall|j: int| 0 <= j < i ==> (#[trigger] ls[j]).0 != id,
            decreases self.leases.len() - i,
        {
            if self.leases[i].id == id {
                proof {
                    assert(ls[i as int].0 == id);
                    lemma_find_at(ls, i as int);
                }
                return Some(i);
            }
            i += 1;
        }
        proof {
            lemma_find_none(ls, id);
        }
        None
    }

    /// Grants a lease now; a number of zero asks for the next free one. Returns
    /// the number and the time to live.
    pub fn grant(&mut self, id: i64, ttl: i64) -> (r: Result<(i64, i64), LeaseError>)
        requires
            old(self).well_formed(),
            id == 0 ==> old(self).next() < i64::MAX,
            id < i64::MAX,
        ensures
            final(self).well_formed(),
            r == grant_result(old(self).leases(), old(self).next(), id, ttl),
            final(self).next() == next_after_grant(old(self).leases(), old(self).next(), id, ttl),
            exists|now: u128|
                final(self).leases() == #[trigger] granted(
                    old(self).leases(),
                    old(self).next(),
                    id,
                    ttl,
                    now,
                ),
    {
        let now: u128 = self.clock.reading();
        self.grant_at(id, ttl, now)
    }

    /// Grants a lease at a reading.
    pub fn grant_at(&mut self, id: i64, ttl: i64, now: u128) -> (r: Result<(i64, i64), LeaseError>)
        requires
            old(self).well_formed(),
            id == 0 ==> old(self).next() < i64::MAX,
            id < i64::MAX,
        ensures
            final(self).well_formed(),
            r == grant_result(old(self).leases(), old(self).next(), id, ttl),
            final(self).next() == next_after_grant(old(self).leases(), old(self).next(), id, ttl),
            final(self).leases() == granted(
                old(self).leases(),
                old(self).next(),
                id,
                ttl,
                now,
            ),
    {
        if ttl <= 0 {
            return Err(LeaseError::InvalidTtl);
        }
        let ghost before = self.leases();
        let lease_id: i64 = if id == 0 {
            let next: i64 = self.next_id;
            self.next_id = next + 1;
            next
        } else {
            match self.position(id) {
                Some(_) => {
                    return Err(LeaseError::AlreadyExists(id));
                },
                None => {},
            }
            if id + 1 > self.next_id {
                self.next_id = id + 1;
            }
            id
        };
        self.leases.push(Lease::new(lease_id, ttl, now));
        proof {
            let v = new_lease(ttl, now);
            assert(self.leases() =~= before.push((lease_id, v)));
            let ls = self.leases();
            assert forall|i: int, j: int| 0 <= i < j < ls.len() implies (#[trigger] ls[i]).0 != (
            #[trigger] ls[j]).0 by {
                if j == before.len() {
                    assert(before[i].0 < old(self).next());
                    assert(before[i].0 != lease_id);
                } else {
                    assert(before[i].0 != before[j].0);
                }
            }
            assert forall|i: int| 0 <= i < ls.len() implies (#[trigger] ls[i]).0 < self.next_id by {
                if i < before.len() {
                    assert(before[i].0 < old(self).next());
                }
            }
            assert forall|i: int| 0 <= i < ls.len() implies (
            #[trigger] ls[i]).1.keys.no_duplicates() by {
                if i < before.len() {
                    assert(before[i].1.keys.no_duplicates());
                }
            }
        }
        Ok((lease_id, ttl))
    }

    /// Renews a lease now; returns its time to live. Whether one that is there
    /// has run out depends on the reading.
    pub fn keepalive(&mut self, id: i64) -> (r: Result<i64, LeaseError>)
        requires
            old(self).well_formed(),
        ensures
            final(self).well_formed(),
            final(self).next() == old(self).next(),
            exists|now: u128|
                final(self).leases() == #[trigger] renewed(old(self).leases(), id, now) && r
                    == renewal(old(self).leases(), id, now),
    {
        let now: u128 = self.clock.reading();
        self.keepalive_at(id, now)
    }

    /// Renews a lease at a reading.
    pub fn keepalive_at(&mut self, id: i64, now: u128) -> (r: Result<i64, LeaseError>)
        requires
            old(self).well_formed(),
        ensures
            final(self).well_formed(),
            final(self).next() == old(self).next(),
            final(self).leases() == renewed(old(self).leases(), id, now),
            r == renewal(old(self).leases(), id, now),
    {
        let ghost before = self.leases();
        match self.position(id) {
            Some(i) => {
                assert(before[i as int].1.keys.no_duplicates());
                let ghost l = self.leases@[i as int]@;
                if self.leases[i].is_expired(now) {
                    return Err(LeaseError::Expired(id));
                }
                self.leases[i].renew(now);
                proof {
                    let v = LeaseView { last_renewed: now, ..l };
                    lemma_with_lease(before, self.leases(), self.next_id, i as int, v);
                }
                Ok(self.leases[i].granted_ttl)
            },
            None => Err(LeaseError::NotFound(id)),
        }
    }

    /// Takes a lease back; returns its keys, which are to be deleted.
    pub fn revoke(&mut self, id: i64) -> (r: Result<Vec<Vec<u8>>, LeaseError>)
        requires
            old(self).well_formed(),
        ensures
            final(self).well_formed(),
            final(self).next() == old(self).next(),
            match find_lease(old(self).leases(), id) {
                None => {
                    &&& r == Err::<Vec<Vec<u8>>, LeaseError>(LeaseError::NotFound(id))
                    &&& final(self).leases() == old(self).leases()
                },
                Some(l) => {
                    &&& r matches Ok(keys) && keys_of(keys@) == l.keys
                    &&& find_lease(final(self).leases(), id) is None
                    &&& exists|i: int|
                        0 <= i < old(self).leases().len() && (#[trigger] old(self).leases()[i]).0
                            == id && final(self).leases() == old(self).leases().remove(i)
                },
            },
            r is Ok <==> find_lease(old(self).leases(), id) is Some,
            r matches Ok(keys) ==> revoked(
                old(self).leases(),
                id,
                keys_of(keys@),
                final(self).leases(),
            ),
    {
        let ghost before = self.leases();
        match self.position(id) {
            Some(i) => {
                let lease: Lease = self.leases.remove(i);
                proof {
                    assert(self.leases() =~= before.remove(i as int));
                    assert(before[i as int].0 == id);
                    lemma_removed_sound(before, self.next_id, i as int);
                    let ls = self.leases();
                    assert forall|j: int| 0 <= j < ls.len() implies (#[trigger] ls[j]).0 != id by {
                        if j < i {
                            assert(before[j].0 != before[i as int].0);
                        } else {
                            assert(before[i as int].0 != before[j + 1].0);
                        }
                    }
                    lemma_find_none(ls, id);
                }
                Ok(lease.keys)
            },
            None => Err(LeaseError::NotFound(id)),
        }
    }

    /// What is known of a lease now.
    pub fn get(&self, id: i64) -> (r: Result<LeaseInfo, LeaseError>)
        requires
            self.well_formed(),
        ensures
            exists|now: u128| #[trigger] info_at(self.leases(), id, now, r),
    {
        let now: u128 = self.clock.reading();
        self.get_at(id, now)
    }

    /// What is known of a lease at a reading.
    pub fn get_at(&self, id: i64, now: u128) -> (r: Result<LeaseInfo, LeaseError>)
        requires
            self.well_formed(),
        ensures
            info_at(self.leases(), id, now, r),
    {
        match self.position(id) {
            Some(i) => {
                let lease: &Lease = &self.leases[i];
                Ok(
                    LeaseInfo {
                        id,
                        ttl: lease.remaining_ttl(now),
                        granted_ttl: lease.granted_ttl,
                        keys: copy_keys(&lease.keys),
                    },
                )
            },
            None => Err(LeaseError::NotFound(id)),
        }
    }

    /// Attaches a key to a lease.
    pub fn attach_key(&mut self, lease_id: i64, key: Vec<u8>) -> (r: Result<(), LeaseError>)
        requires
            old(self).well_formed(),
        ensures
            final(self).well_formed(),
            final(self).next() == old(self).next(),
            match find_lease(old(self).leases(), lease_id) {
                None => {
                    &&& r == Err::<(), LeaseError>(LeaseError::NotFound(lease_id))
                    &&& final(self).leases() == old(self).leases()
                },
                Some(l) => {
                    &&& r == Ok::<(), LeaseError>(())
                    &&& final(self).leases() == with_lease(
                        old(self).leases(),
                        lease_id,
                        LeaseView { keys: with_attached(l.keys, key@), ..l },
                    )
                },
            },
    {
        let ghost before = self.leases();
        match self.position(lease_id) {
            Some(i) => {
                assert(before[i as int].1.keys.no_duplicates());
                let ghost l = self.leases@[i as int]@;
                self.leases[i].attach_key(key);
                proof {
                    let v = LeaseView { keys: with_attached(l.keys, key@), ..l };
                    lemma_with_lease(before, self.leases(), self.next_id, i as int, v);
                }
                Ok(())
            },
            None => Err(LeaseError::NotFound(lease_id)),
        }
    }

    /// Detaches a key from a lease, if both are there.
    pub fn detach_key(&mut self, lease_id: i64, key: &[u8])
        requires
            old(self).well_formed(),
        ensures
            final(self).well_formed(),
            final(self).next() == old(self).next(),
            match find_lease(old(self).leases(), lease_id) {
                None => final(self).leases() == old(self).leases(),
                Some(l) => final(self).leases() == with_lease(
                    old(self).leases(),
                    lease_id,
                    LeaseView { keys: l.keys.remove_value(key@), ..l },
                ),
            },
    {
        let ghost before = self.leases();
        match self.position(lease_id) {
            Some(i) => {
                assert(before[i as int].1.keys.no_duplicates());
                let ghost l = self.leases@[i as int]@;
                self.leases[i].detach_key(key);
                proof {
                    let v = LeaseView { keys: l.keys.remove_value(key@), ..l };
                    lemma_with_lease(before, self.leases(), self.next_id, i as int, v);
                }
            },
            None => {},
        }
    }

    /// Takes out the leases that have run out now; returns their numbers and
    /// keys.
    pub fn collect_expired(&mut self) -> (r: Vec<(i64, Vec<Vec<u8>>)>)
        requires
            old(self).well_formed(),
        ensures
            final(self).well_formed(),
            final(self).next() == old(self).next(),
            exists|now: u128|
                final(self).leases() == (#[trigger] split_lapsed(old(self).leases(), now)).0
                    && expired_view(r@) == lease_keys(split_lapsed(old(self).leases(), now).1),
    {
        let now: u128 = self.clock.reading();
        self.collect_expired_at(now)
    }

    /// Takes out the leases that have run out at a reading.
    pub fn collect_expired_at(&mut self, now: u128) -> (r: Vec<(i64, Vec<Vec<u8>>)>)
        requires
            old(self).well_formed(),
        ensures
            final(self).well_formed(),
            final(self).next() == old(self).next(),
            final(self).leases() == split_lapsed(old(self).leases(), now).0,
            expired_view(r@) == lease_keys(split_lapsed(old(self).leases(), now).1),
    {
        let count: usize = self.leases.len();
        let ghost ls = self.leases();
        let mut gone: Vec<(i64, Vec<Vec<u8>>)> = Vec::new();
        let mut i: usize = 0;
        let mut n: usize = 0;
        proof {
            assert(ls.take(0) =~= Seq::<(i64, LeaseView)>::empty());
            assert(expired_view(gone@) =~= lease_keys(split_lapsed(ls.take(0), now).1));
            assert(self.leases() =~= split_lapsed(ls.take(0), now).0 + ls.skip(0));
        }
        while n < count
            invariant
                n <= count,
                count == ls.len(),
                self.next_id == old(self).next_id,
                self.leases() == split_lapsed(ls.take(n as int), now).0 + ls.skip(n as int),
                i == split_lapsed(ls.take(n as int), now).0.len(),
                expired_view(gone@) == lease_keys(split_lapsed(ls.take(n as int), now).1),
            decreases count - n,
        {
            let ghost (live, dead) = split_lapsed(ls.take(n as int), now);
            let ghost before = self.leases();
            let ghost gone_before = expired_view(gone@);
            proof {
                assert(ls.take(n + 1).drop_last() =~= ls.take(n as int));
                assert(ls.take(n + 1).last() == ls[n as int]);
                assert(before[i as int] == ls.skip(n as int)[0]);
                assert(self.leases@.len() == before.len());
            }
            if self.leases[i].is_expired(now) {
                let lease: Lease = self.leases.remove(i);
                gone.push((lease.id, lease.keys));
                proof {
                    assert(self.leases() =~= before.remove(i as int));
                    assert(before.remove(i as int) =~= live + ls.skip(n + 1));
                    assert(expired_view(gone@) =~= gone_before.push(
                        (ls[n as int].0, ls[n as int].1.keys),
                    ));
                    assert(lease_keys(dead.push(ls[n as int])) =~= lease_keys(dead).push(
                        (ls[n as int].0, ls[n as int].1.keys),
                    ));
                }
            } else {
                let total: usize = self.leases.len();
                assert(i < total);
                i += 1;
                assert(before =~= live.push(ls[n as int]) + ls.skip(n + 1));
            }
            n += 1;
        }
        proof {
            assert(ls.take(n as int) =~= ls);
            assert(ls.skip(n as int) =~= Seq::<(i64, LeaseView)>::empty());
            assert(self.leases() =~= split_lapsed(ls, now).0);
            lemma_split_sound(ls, now, self.next_id);
        }
        gone
    }

    /// The number that the next lease without one gets.
    pub fn next_id(&self) -> (r: i64)
        ensures
            r == self.next(),
    {
        self.next_id
    }

    /// The number of leases.
    pub fn lease_count(&self) -> (r: usize)
        ensures
            r == self.leases().len(),
    {
        self.leases.len()
    }

    /// Whether a lease is there now and has not run out.
    pub fn is_alive(&self, id: i64) -> (r: bool)
        requires
            self.well_formed(),
        ensures
            exists|now: u128| r == #[trigger] alive_at(self.leases(), id, now),
    {
        let now: u128 = self.clock.reading();
        self.is_alive_at(id, now)
    }

    /// Whether a lease is there at a reading and has not run out.
    pub fn is_alive_at(&self, id: i64, now: u128) -> (r: bool)
        requires
            self.well_formed(),
        ensures
            r == alive_at(self.leases(), id, now),
    {
        match self.position(id) {
            Some(i) => !self.leases[i].is_expired(now),
            None => false,
        }
    }
}

fn copy_keys(keys: &Vec<Vec<u8>>) -> (r: Vec<Vec<u8>>)
    ensures
        keys_of(r@) == keys_of(keys@),
{
    let mut out: Vec<Vec<u8>> = Vec::new();
    let mut i: usize = 0;
    while i < keys.len()
        invariant
            i <= keys.len(),
            out.len() == i,
            forall|j: int| 0 <= j < i ==> (#[trigger] out@[j])@ == keys@[j]@,
        decreases keys.len() - i,
    {
        out.push(copy(keys[i].as_slice()));
        i += 1;
    }
    assert(keys_of(out@) =~= keys_of(keys@));
    out
}

proof fn lemma_removed_sound(ls: Seq<(i64, LeaseView)>, next_id: i64, i: int)
    requires
        leases_sound(ls, next_id),
        0 <= i < ls.len(),
    ensures
        leases_sound(ls.remove(i), next_id),
{
    let rest = ls.remove(i);
    assert forall|x: int, y: int| 0 <= x < y < rest.len() implies (#[trigger] rest[x]).0 != (
    #[trigger] rest[y]).0 by {
        let a = if x < i {
            x
        } else {
            x + 1
        };
        let b = if y < i {
            y
        } else {
            y + 1
        };
        assert(ls[a].0 != ls[b].0);
    }
    assert forall|x: int| 0 <= x < rest.len() implies (#[trigger] rest[x]).0 < next_id
        && rest[x].1.keys.no_duplicates() by {
        let a = if x < i {
            x
        } else {
            x + 1
        };
        assert(ls[a].0 < next_id);
    }
}

proof fn lemma_with_lease(
    before: Seq<(i64, LeaseView)>,
    after: Seq<(i64, LeaseView)>,
    next_id: i64,
    i: int,
    v: LeaseView,
)
    requires
        leases_sound(before, next_id),
        0 <= i < before.len(),
        after.len() == before.len(),
        after[i] == (before[i].0, v),
        forall|j: int| 0 <= j < before.len() && j != i ==> #[trigger] after[j] == before[j],
        v.keys.no_duplicates(),
    ensures
        after == with_lease(before, before[i].0, v),
        leases_sound(after, next_id),
{
    assert forall|j: int| 0 <= j < before.len() implies after[j] == with_lease(
        before,
        before[i].0,
        v,
    )[j] by {
        if j < i {
            assert(before[j].0 != before[i].0);
        } else if j > i {
            assert(before[i].0 != before[j].0);
        }
    }
    assert(after =~= with_lease(before, before[i].0, v));
    assert forall|x: int, y: int| 0 <= x < y < after.len() implies (#[trigger] after[x]).0 != (
    #[trigger] after[y]).0 by {
        assert(before[x].0 != before[y].0);
    }
    assert forall|x: int| 0 <= x < after.len() implies (#[trigger] after[x]).0 < next_id
        && after[x].1.keys.no_duplicates() by {
        assert(before[x].0 < next_id);
    }
}

/// The leases that have not run out are sound, and are among all of them.
proof fn lemma_split_sound(ls: Seq<(i64, LeaseView)>, now: u128, next_id: i64)
    requires
        leases_sound(ls, next_id),
    ensures
        leases_sound(split_lapsed(ls, now).0, next_id),
        forall|x: int|
            0 <= x < split_lapsed(ls, now).0.len() ==> ls.contains(
                #[trigger] split_lapsed(ls, now).0[x],
            ),
    decreases ls.len(),
{
    if ls.len() > 0 {
        let rest = ls.drop_last();
        assert(leases_sound(rest, next_id)) by {
            assert forall|x: int, y: int| 0 <= x < y < rest.len() implies (#[trigger] rest[x]).0 != (
            #[trigger] rest[y]).0 by {
                assert(ls[x].0 != ls[y].0);
            }
            assert forall|x: int| 0 <= x < rest.len() implies (#[trigger] rest[x]).0 < next_id
                && rest[x].1.keys.no_duplicates() by {
                assert(ls[x].0 < next_id);
            }
        }
        lemma_split_sound(rest, now, next_id);
        let live0 = split_lapsed(rest, now).0;
        let live = split_lapsed(ls, now).0;
        assert forall|x: int| 0 <= x < live.len() implies ls.contains(#[trigger] live[x]) by {
            if x < live0.len() {
                assert(rest.contains(live0[x]));
                assert(ls[rest.index_of(live0[x])] == live[x]);
            } else {
                assert(ls[ls.len() - 1] == live[x]);
            }
        }
        assert forall|x: int, y: int| 0 <= x < y < live.len() implies (#[trigger] live[x]).0 != (
        #[trigger] live[y]).0 by {
            if y < live0.len() {
                assert(live0[x].0 != live0[y].0);
            } else {
                assert(rest.contains(live0[x]));
                let j = rest.index_of(live0[x]);
                assert(ls[j].0 != ls[ls.len() - 1].0);
            }
        }
        assert forall|x: int| 0 <= x < live.len() implies (#[trigger] live[x]).0 < next_id
            && live[x].1.keys.no_duplicates() by {
            let j = ls.index_of(live[x]);
            assert(ls.contains(live[x]));
            assert(ls[j].0 < next_id);
        }
    }
}

impl Default for LeaseManager {
    fn default() -> (r: Self)
        ensures
            r.well_formed(),
            r.leases() == Seq::<(i64, LeaseView)>::empty(),
            r.next() == 1,
    {
        LeaseManager::new()
    }
}

} // verus!
