//! The service for leases.

use vstd::prelude::*;
use crate::server::apply::KvCommand;
use crate::server::lease::{
    expired_view, find_lease, grant_result, granted, info_at, keys_of,
    law_living_leases_are_renewed, law_time_left_counts_down, leases_sound, left, lemma_find_at,
    next_after_grant, renewal, renewed, LeaseError, LeaseInfo, LeaseManager, LeaseView,
};
use crate::server::server::{commands_view, deletions, expiry_commands};
use crate::server::status::{lease_error_text, lease_error_view, refused, Status, StatusCode};

verus! {

/// A lease that was granted.
#[derive(Debug, Clone, Copy, PartialEq, Eq, Structural)]
pub struct LeaseGrantResponse {
    pub id: i64,
    pub ttl: i64,
}

/// The answer to a renewal.
#[derive(Debug, Clone, Copy, PartialEq, Eq, Structural)]
pub struct LeaseKeepAliveResponse {
    pub id: i64,
    /// The time to live; 0 where the lease is not there or has run out.
    pub ttl: i64,
}

/// What a client is told of a lease.
#[derive(Debug)]
pub struct LeaseTimeToLiveResponse {
    pub id: i64,
    pub ttl: i64,
    pub granted_ttl: i64,
    pub keys: Vec<Vec<u8>>,
}

/// The service for leases.
#[derive(Debug, Clone, Copy)]
pub struct LeaseRpcService {}

impl LeaseRpcService {
    pub fn new() -> (r: Self)
        ensures
            r == (LeaseRpcService {  }),
    {
        LeaseRpcService {  }
    }

    /// Grants a lease.
    pub fn lease_grant(&self, leases: &mut LeaseManager, id: i64, ttl: i64) -> (r: Result<
        LeaseGrantResponse,
        Status,
    >)
        requires
            old(leases).well_formed(),
            id == 0 ==> old(leases).next() < i64::MAX,
            id < i64::MAX,
        ensures
            final(leases).well_formed(),
            final(leases).next() == next_after_grant(
                old(leases).leases(),
                old(leases).next(),
                id,
                ttl,
            ),
            exists|now: u128|
                final(leases).leases() == #[trigger] granted(
                    old(leases).leases(),
                    old(leases).next(),
                    id,
                    ttl,
                    now,
                ),
            match grant_result(old(leases).leases(), old(leases).next(), id, ttl) {
                Ok((id, ttl)) => r == Ok::<LeaseGrantResponse, Status>(
                    LeaseGrantResponse { id, ttl },
                ),
                Err(e) => refused(r, StatusCode::FailedPrecondition, lease_error_view(e)),
            },
    {
        match leases.grant(id, ttl) {
            Ok((id, ttl)) => Ok(LeaseGrantResponse { id, ttl }),
            Err(e) => Err(
                Status { code: StatusCode::FailedPrecondition, message: lease_error_text(e) },
            ),
        }
    }

    /// Takes a lease back; returns the deletions of its keys, which are to be
    /// proposed.
    pub fn lease_revoke(&self, leases: &mut LeaseManager, id: i64) -> (r: Result<
        Vec<KvCommand>,
        Status,
    >)
        requires
            old(leases).well_formed(),
        ensures
            final(leases).well_formed(),
            final(leases).next() == old(leases).next(),
            match find_lease(old(leases).leases(), id) {
                Some(l) => {
                    &&& r matches Ok(commands) && commands_view(commands@) == deletions(
                        seq![(id, l.keys)],
                    )
                    &&& find_lease(final(leases).leases(), id) is None
                    &&& exists|i: int|
                        0 <= i < old(leases).leases().len() && (
                        #[trigger] old(leases).leases()[i]).0 == id && final(leases).leases()
                            == old(leases).leases().remove(i)
                },
                None => {
                    &&& refused(
                        r,
                        StatusCode::FailedPrecondition,
                        lease_error_view(LeaseError::NotFound(id)),
                    )
                    &&& final(leases).leases() == old(leases).leases()
                },
            },
    {
        match leases.revoke(id) {
            Ok(keys) => {
                let ghost held = keys_of(keys@);
                let mut gone: Vec<(i64, Vec<Vec<u8>>)> = Vec::new();
                gone.push((id, keys));
                assert(expired_view(gone@) =~= seq![(id, held)]);
                Ok(expiry_commands(gone))
            },
            Err(e) => Err(
                Status { code: StatusCode::FailedPrecondition, message: lease_error_text(e) },
            ),
        }
    }

    /// Renews a lease now. A lease that is not there has no time to live left,
    /// and neither has one that has run out.
    pub fn lease_keep_alive(&self, leases: &mut LeaseManager, id: i64) -> (r:
        LeaseKeepAliveResponse)
        requires
            old(leases).well_formed(),
        ensures
            final(leases).well_formed(),
            final(leases).next() == old(leases).next(),
            r.id == id,
            exists|now: u128|
                final(leases).leases() == #[trigger] renewed(old(leases).leases(), id, now)
                    && r.ttl == renewal_ttl(renewal(old(leases).leases(), id, now)),
    {
        keep_alive_response(id, leases.keepalive(id))
    }

    /// Renews a lease at a reading.
    pub fn lease_keep_alive_at(&self, leases: &mut LeaseManager, id: i64, now: u128) -> (r:
        LeaseKeepAliveResponse)
        requires
            old(leases).well_formed(),
        ensures
            final(leases).well_formed(),
            final(leases).next() == old(leases).next(),
            final(leases).leases() == renewed(old(leases).leases(), id, now),
            r == (LeaseKeepAliveResponse {
                id,
                ttl: renewal_ttl(renewal(old(leases).leases(), id, now)),
            }),
    {
        keep_alive_response(id, leases.keepalive_at(id, now))
    }

    /// Tells how long a lease has left, and its keys where asked.
    pub fn lease_time_to_live(&self, leases: &LeaseManager, id: i64, with_keys: bool) -> (r:
        Result<LeaseTimeToLiveResponse, Status>)
        requires
            leases.well_formed(),
        ensures
            exists|now: u128| #[trigger]
                time_to_live_at(leases.leases(), id, with_keys, now, r),
    {
        let found: Result<LeaseInfo, LeaseError> = leases.get(id);
        let ghost now = choose|now: u128| #[trigger] info_at(leases.leases(), id, now, found);
        match found {
            Ok(info) => {
                let told: LeaseTimeToLiveResponse = time_to_live_response(info, with_keys);
                assert(time_to_live_at(leases.leases(), id, with_keys, now, Ok(told)));
                Ok(told)
            },
            Err(e) => {
                let status = Status { code: StatusCode::NotFound, message: lease_error_text(e) };
                assert(time_to_live_at(leases.leases(), id, with_keys, now, Err(status)));
                Err(status)
            },
        }
    }
}

/// What a client is told of how long a lease has left at a reading.
pub open spec fn time_to_live_at(
    ls: Seq<(i64, LeaseView)>,
    id: i64,
    with_keys: bool,
    now: u128,
    r: Result<LeaseTimeToLiveResponse, Status>,
) -> bool {
    match find_lease(ls, id) {
        None => refused(r, StatusCode::NotFound, lease_error_view(LeaseError::NotFound(id))),
        Some(l) => r matches Ok(t) && {
            &&& t.id == id
            &&& t.granted_ttl == l.granted_ttl
            &&& keys_of(t.keys@) == if with_keys {
                l.keys
            } else {
                Seq::empty()
            }
            &&& t.ttl == left(l, now)
        },
    }
}

/// The time to live that the answer to a renewal gives.
pub open spec fn renewal_ttl(renewed: Result<i64, LeaseError>) -> i64 {
    match renewed {
        Ok(ttl) => ttl,
        Err(_) => 0,
    }
}

/// The answer to a renewal that came out as given.
pub fn keep_alive_response(id: i64, renewed: Result<i64, LeaseError>) -> (r: LeaseKeepAliveResponse)
    ensures
        r == (LeaseKeepAliveResponse {
            id,
            ttl: renewal_ttl(renewed),
        }),
{
    let ttl: i64 = match renewed {
        Ok(ttl) => ttl,
        Err(_) => 0,
    };
    LeaseKeepAliveResponse { id, ttl }
}

/// What a client is told of a lease, with its keys where asked.
pub fn time_to_live_response(info: LeaseInfo, with_keys: bool) -> (r: LeaseTimeToLiveResponse)
    ensures
        r.id == info.id,
        r.ttl == info.ttl,
        r.granted_ttl == info.granted_ttl,
        keys_of(r.keys@) == if with_keys {
            keys_of(info.keys@)
        } else {
            Seq::empty()
        },
{
    let keys: Vec<Vec<u8>> = if with_keys {
        info.keys
    } else {
        Vec::new()
    };
    assert(!with_keys ==> keys_of(keys@) =~= Seq::<Seq<u8>>::empty());
    LeaseTimeToLiveResponse { id: info.id, ttl: info.ttl, granted_ttl: info.granted_ttl, keys }
}

/// A lease that is kept alive is answered with its whole time, and one that is
/// unknown or has run out with none.
pub proof fn law_keep_alive_answers(
    ls: Seq<(i64, LeaseView)>,
    next: i64,
    place: int,
    now: u128,
)
    requires
        leases_sound(ls, next),
        0 <= place < ls.len(),
        ls[place].1.last_renewed <= now,
    ensures
        ({
            let (id, l) = ls[place];
            renewal_ttl(renewal(ls, id, now)) == if now < l.last_renewed + l.granted_ttl
                * 1_000_000_000 {
                l.granted_ttl as int
            } else {
                0
            }
        }),
{
    law_living_leases_are_renewed(ls, next, place, now);
}

/// A report on a lease tells the time that was granted, the time that is left and,
/// where they are asked for, the keys; there is none on a lease that does not
/// exist.
pub proof fn law_reports_tell_the_lease(
    ls: Seq<(i64, LeaseView)>,
    next: i64,
    place: int,
    with_keys: bool,
    now: u128,
    r: Result<LeaseTimeToLiveResponse, Status>,
)
    requires
        leases_sound(ls, next),
        0 <= place < ls.len(),
        ls[place].1.last_renewed <= now,
        ls[place].1.granted_ttl >= 0,
        time_to_live_at(ls, ls[place].0, with_keys, now, r),
    ensures
        ({
            let (id, l) = ls[place];
            &&& r is Ok
            &&& r->Ok_0.id == id
            &&& r->Ok_0.granted_ttl == l.granted_ttl
            &&& with_keys ==> keys_of(r->Ok_0.keys@) == l.keys
            &&& !with_keys ==> r->Ok_0.keys@.len() == 0
            &&& now - l.last_renewed < 1_000_000_000 ==> r->Ok_0.ttl == l.granted_ttl
            &&& r->Ok_0.ttl == 0 <==> now - l.last_renewed >= l.granted_ttl * 1_000_000_000
        }),
{
    lemma_find_at(ls, place);
    law_time_left_counts_down(ls[place].1, now);
    assert(keys_of(r->Ok_0.keys@).len() == r->Ok_0.keys@.len());
}

} // verus!
