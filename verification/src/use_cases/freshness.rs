//! A reader's bound on how long ago a remote last pulled.

use vstd::prelude::*;

use crate::config::{Config, remote_index};
use crate::domain::{Timestamp, earlier, is_earlier};
use crate::errors::{Refusal, UseCaseError};
use crate::ports::{Clock, RemoteTrackingRepository, StoreData};

verus! {

/// How many whole seconds after `at` it is at `now`; a time after now, as
/// when the clock was set back, is no time ago.
pub open spec fn age_of(now: Timestamp, at: Timestamp) -> int {
    if earlier(now, at) {
        0
    } else if now.nanos < at.nanos {
        now.seconds - at.seconds - 1
    } else {
        now.seconds - at.seconds
    }
}

/// An instant in nanoseconds since the Unix epoch.
pub open spec fn instant(t: Timestamp) -> int {
    t.seconds * 1_000_000_000 + t.nanos
}

/// The age is the whole seconds between the pull and now, rounded down, and
/// nothing when the pull is stamped after now.
pub proof fn lemma_age_counts_whole_seconds(now: Timestamp, at: Timestamp)
    requires
        now.nanos < 1_000_000_000,
        at.nanos < 1_000_000_000,
    ensures
        instant(now) < instant(at) ==> age_of(now, at) == 0,
        instant(now) >= instant(at) ==> age_of(now, at) * 1_000_000_000 <= instant(now) - instant(at) < (age_of(
            now,
            at,
        ) + 1) * 1_000_000_000,
        earlier(now, at) <==> instant(now) < instant(at),
{
}

/// The bound `limit` seconds on the remote configured under `name` holds at
/// `now`: it has pulled, no longer ago than that.
pub open spec fn bound_holds(d: StoreData, config: Config, name: Seq<char>, limit: u64, now: Timestamp) -> bool {
    match remote_index(config.remotes@, name) {
        Some(k) => match d.last_pulls.get(config.remotes@[k].name@) {
            Some(at) => age_of(now, at) <= limit,
            None => false,
        },
        None => false,
    }
}

/// Every bound of `bounds` holds at `now`.
pub open spec fn all_hold(d: StoreData, config: Config, bounds: Seq<(String, u64)>, now: Timestamp) -> bool {
    forall|i: int| 0 <= i < bounds.len() ==> bound_holds(d, config, (#[trigger] bounds[i]).0@, bounds[i].1, now)
}

/// Every bound of `bounds` held when the clock was read.
pub open spec fn fresh_when_read(d: StoreData, config: Config, bounds: Seq<(String, u64)>) -> bool {
    exists|now: Timestamp| #[trigger] all_hold(d, config, bounds, now)
}

/// The refusal a stale bound on the remote configured under `name` gets at
/// `now`.
pub open spec fn stale_refusal(d: StoreData, config: Config, name: Seq<char>, limit: u64, now: Timestamp, r: Refusal) -> bool {
    match (r, remote_index(config.remotes@, name)) {
        (Refusal::StaleRemote { remote, age, limit: l }, Some(k)) => {
            &&& remote@ == name
            &&& l == limit
            &&& match d.last_pulls.get(config.remotes@[k].name@) {
                Some(at) => age == Some(age_of(now, at) as u64) && age_of(now, at) > limit,
                None => age is None,
            }
        },
        _ => false,
    }
}

/// Some bound of `bounds` gets `r` when the clock was read.
pub open spec fn stale_when_read(d: StoreData, config: Config, bounds: Seq<(String, u64)>, r: Refusal) -> bool {
    exists|now: Timestamp, i: int|
        0 <= i < bounds.len() && #[trigger] stale_refusal(d, config, bounds[i].0@, bounds[i].1, now, r)
}

/// The refusal the bound `limit` on the remote configured under `name`
/// gets at `now`: a name no remote is configured under is refused as such,
/// any other as stale.
pub open spec fn refusal_for(d: StoreData, config: Config, name: Seq<char>, limit: u64, now: Timestamp, r: Refusal) -> bool {
    match remote_index(config.remotes@, name) {
        None => r matches Refusal::NoSuchRemote(n) && n@ == name,
        Some(_) => stale_refusal(d, config, name, limit, now, r),
    }
}

/// When the clock was read, every bound before the `i`th held and the
/// `i`th gets `r`.
pub open spec fn first_refused_at(d: StoreData, config: Config, bounds: Seq<(String, u64)>, now: Timestamp, i: int, r: Refusal) -> bool {
    &&& 0 <= i < bounds.len()
    &&& forall|j: int| 0 <= j < i ==> bound_holds(d, config, (#[trigger] bounds[j]).0@, bounds[j].1, now)
    &&& refusal_for(d, config, bounds[i].0@, bounds[i].1, now, r)
}

/// `r` is the refusal of the first bound of `bounds` that failed when the
/// clock was read.
pub open spec fn first_refused(d: StoreData, config: Config, bounds: Seq<(String, u64)>, r: Refusal) -> bool {
    exists|now: Timestamp, i: int| #[trigger] first_refused_at(d, config, bounds, now, i, r)
}

/// How many seconds after `at` it is at `now`, none when `at` is later.
fn age(now: Timestamp, at: Timestamp) -> (r: u64)
    ensures
        r == age_of(now, at),
{
    if is_earlier(now, at) {
        0
    } else {
        let whole: i128 = now.seconds as i128 - at.seconds as i128;
        let diff: i128 = if now.nanos < at.nanos {
            whole - 1
        } else {
            whole
        };
        assert(0 <= diff <= u64::MAX);
        diff as u64
    }
}

/// Refuses when a named remote last pulled longer ago than its bound, or
/// never has. A clock set back since the pull reads as age zero.
pub fn require_fresh<S: RemoteTrackingRepository, K: Clock>(
    store: &S,
    clock: &K,
    config: &Config,
    bounds: &Vec<(String, u64)>,
) -> (r: Result<(), UseCaseError>)
    ensures
        r is Ok ==> fresh_when_read(store.model().data, *config, bounds@),
        (exists|i: int| 0 <= i < bounds@.len() && remote_index(config.remotes@, (#[trigger] bounds@[i]).0@) is None)
            ==> r is Err,
        r matches Err(UseCaseError::Refused(Refusal::NoSuchRemote(n))) ==> exists|i: int|
            0 <= i < bounds@.len() && remote_index(config.remotes@, (#[trigger] bounds@[i]).0@) is None && n@
                == bounds@[i].0@,
        r matches Err(UseCaseError::Refused(rf)) ==> rf is NoSuchRemote || stale_when_read(
            store.model().data,
            *config,
            bounds@,
            rf,
        ),
        r matches Err(UseCaseError::Refused(rf)) ==> first_refused(store.model().data, *config, bounds@, rf),
        r matches Err(e) ==> e is Store || e matches UseCaseError::Refused(Refusal::NoSuchRemote(_))
            || e matches UseCaseError::Refused(Refusal::StaleRemote { .. }),
{
    let ghost d = store.model().data;
    let now = clock.now();
    let mut i: usize = 0;
    while i < bounds.len()
        invariant
            d == store.model().data,
            i <= bounds.len(),
            forall|j: int| 0 <= j < i ==> bound_holds(d, *config, (#[trigger] bounds@[j]).0@, bounds@[j].1, now),
        decreases bounds.len() - i,
    {
        let name = &bounds[i].0;
        let limit = bounds[i].1;
        let remote = match config.remote(name.as_str()) {
            Some(r) => r,
            None => {
                let refusal = Refusal::NoSuchRemote(name.clone());
                assert(first_refused_at(d, *config, bounds@, now, i as int, refusal));
                return Err(UseCaseError::Refused(refusal));
            },
        };
        let last = match store.last_pull(&remote.name) {
            Ok(l) => l,
            Err(e) => return Err(UseCaseError::Store(e)),
        };
        let aged = match last {
            Some(at) => Some(age(now, at)),
            None => None,
        };
        let stale = match aged {
            Some(a) => a > limit,
            None => true,
        };
        if stale {
            let refusal = Refusal::StaleRemote { remote: name.clone(), age: aged, limit };
            assert(stale_refusal(d, *config, bounds@[i as int].0@, bounds@[i as int].1, now, refusal));
            assert(first_refused_at(d, *config, bounds@, now, i as int, refusal));
            return Err(UseCaseError::Refused(refusal));
        }
        i = i + 1;
    }
    assert(all_hold(d, *config, bounds@, now));
    proof {
        if exists|i: int| 0 <= i < bounds@.len() && remote_index(config.remotes@, (#[trigger] bounds@[i]).0@) is None {
            let i = choose|i: int| 0 <= i < bounds@.len() && remote_index(config.remotes@, (#[trigger] bounds@[i]).0@) is None;
            assert(bound_holds(d, *config, bounds@[i].0@, bounds@[i].1, now));
        }
    }
    Ok(())
}

} // verus!
