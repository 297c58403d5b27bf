//! Idle routes: route keys with no traffic in one direction or the other for
//! longer than a configured time.
use vstd::prelude::*;

use crate::channel::table::RouteTableView;
use crate::channel::{key_lt, lemma_key_order, RouteKey};

verus! {

/// In which direction a route is idle.
#[derive(Clone, Copy, PartialEq, Eq, Debug, Hash, Structural)]
pub enum IdleStatus {
    Write,
    Read,
    Both,
}

/// Whether a route key whose last read and last write were at `last_read`
/// and `last_write` is idle at time `now`. It is read idle when `read_idle`
/// is positive and the last read is more than `read_idle` milliseconds old,
/// write idle likewise; an idle time of zero or less turns that check off.
pub open spec fn idle_status_of(
    read_idle: i64,
    write_idle: i64,
    now: i64,
    last_read: i64,
    last_write: i64,
) -> Option<IdleStatus> {
    let r = read_idle > 0 && last_read < now - read_idle;
    let w = write_idle > 0 && last_write < now - write_idle;
    if w {
        Some(if r { IdleStatus::Both } else { IdleStatus::Write })
    } else if r {
        Some(IdleStatus::Read)
    } else {
        None
    }
}

/// The idle status of one route key (see `idle_status_of`).
pub fn idle_status(read_idle: i64, write_idle: i64, now: i64, last_read: i64, last_write: i64) -> (r:
    Option<IdleStatus>)
    ensures
        r == idle_status_of(read_idle, write_idle, now, last_read, last_write),
{
    let r = read_idle > 0 && (last_read as i128) < (now as i128) - (read_idle as i128);
    let w = write_idle > 0 && (last_write as i128) < (now as i128) - (write_idle as i128);
    if w {
        if r {
            Some(IdleStatus::Both)
        } else {
            Some(IdleStatus::Write)
        }
    } else if r {
        Some(IdleStatus::Read)
    } else {
        None
    }
}

/// The outcome of a scan for idle routes.
#[derive(Debug)]
pub enum IdleScan<ID> {
    /// The peers `ids` behind `key` are idle as `status`.
    Idle(IdleStatus, Vec<ID>, RouteKey),
    /// No route key is idle; the argument is the earliest time that counts.
    Active(i64),
}

/// What a scan at time `now` finds in table `v`. `Idle` names the first route
/// key in key order that is idle (see `idle_status_of`), its status and its
/// peers (the peers are stated for id types that behave as plain values).
/// `Active` means that no route key is idle; its argument is the smallest
/// last read (when reads are checked) or last write (when writes are checked)
/// over all route keys, or `i64::MAX` when there is none.
pub open spec fn idle_scan_spec<ID: PartialEq + Clone>(
    v: RouteTableView<ID>,
    read_idle: i64,
    write_idle: i64,
    now: i64,
    r: IdleScan<ID>,
) -> bool {
    match r {
        IdleScan::Idle(status, ids, key) => {
            &&& v.times.contains_key(key)
            &&& idle_status_of(read_idle, write_idle, now, v.times[key].last_read, v.times[key].last_write)
                == Some(status)
            &&& crate::channel::table::id_model::<ID>() ==> ids@ == v.times[key].ids
            &&& forall|k: RouteKey| #[trigger]
                v.times.contains_key(k) && key_lt(k, key) ==> idle_status_of(
                    read_idle,
                    write_idle,
                    now,
                    v.times[k].last_read,
                    v.times[k].last_write,
                ) is None
        },
        IdleScan::Active(earliest) => {
            &&& forall|k: RouteKey| #[trigger]
                v.times.contains_key(k) ==> {
                    &&& idle_status_of(read_idle, write_idle, now, v.times[k].last_read, v.times[k].last_write) is None
                    &&& read_idle > 0 ==> earliest <= v.times[k].last_read
                    &&& write_idle > 0 ==> earliest <= v.times[k].last_write
                }
            &&& earliest == i64::MAX || exists|k: RouteKey| #[trigger]
                v.times.contains_key(k) && ((read_idle > 0 && earliest == v.times[k].last_read) || (
                write_idle > 0 && earliest == v.times[k].last_write))
        },
    }
}

/// What the idle watcher does next.
#[derive(Debug)]
pub enum IdleStep<ID> {
    /// Report that the peers `ids` behind `key` are idle as `status`.
    Report(IdleStatus, Vec<ID>, RouteKey),
    /// No route is in use: wait until woken.
    Park,
    /// Wait this many milliseconds (or until woken), then look again.
    ParkFor(u64),
    /// Look again at once.
    Rescan,
}

/// The wait after a scan that found no idle route, at time `later`: with no
/// route in use, until woken; else, when `earliest` (the earliest time that
/// counts) lies in the past, as many milliseconds as have passed since it;
/// else none.
pub open spec fn wait_step<ID>(empty: bool, later: i64, earliest: i64) -> IdleStep<ID> {
    if empty {
        IdleStep::Park
    } else if later - earliest > 0 {
        IdleStep::ParkFor((later - earliest) as u64)
    } else {
        IdleStep::Rescan
    }
}

/// The wait after a scan that found no idle route (see `wait_step`).
pub fn wait_after_scan<ID>(empty: bool, later: i64, earliest: i64) -> (r: IdleStep<ID>)
    ensures
        r == wait_step::<ID>(empty, later, earliest),
{
    if empty {
        IdleStep::Park
    } else {
        let sleep = (later as i128) - (earliest as i128);
        if sleep > 0 {
            IdleStep::ParkFor(sleep as u64)
        } else {
            IdleStep::Rescan
        }
    }
}

/// An idle time of zero or less turns its check off: with both off no route
/// key is ever idle, and with one off a route key is idle only in the other
/// direction.
pub proof fn law_idle_checks_off(read_idle: i64, write_idle: i64, now: i64, last_read: i64, last_write: i64)
    ensures
        read_idle <= 0 && write_idle <= 0 ==> idle_status_of(read_idle, write_idle, now, last_read, last_write)
            is None,
        read_idle <= 0 ==> idle_status_of(read_idle, write_idle, now, last_read, last_write) != Some(
            IdleStatus::Read,
        ) && idle_status_of(read_idle, write_idle, now, last_read, last_write) != Some(IdleStatus::Both),
        write_idle <= 0 ==> idle_status_of(read_idle, write_idle, now, last_read, last_write) != Some(
            IdleStatus::Write,
        ) && idle_status_of(read_idle, write_idle, now, last_read, last_write) != Some(IdleStatus::Both),
{
}

/// A scan's outcome is determined by the table, the idle times and the
/// time: two scans of the same table at the same time find the same route
/// key, in the same status, with the same peers (for id types that behave as
/// plain values), or both find no idle route key and the same earliest time.
/// (A scan reads the table through a shared reference and leaves it as it
/// was, so a route it reports is not consumed: scanning again finds it
/// again.)
pub proof fn law_scan_deterministic<ID: PartialEq + Clone>(
    v: RouteTableView<ID>,
    read_idle: i64,
    write_idle: i64,
    now: i64,
    a: IdleScan<ID>,
    b: IdleScan<ID>,
)
    requires
        idle_scan_spec(v, read_idle, write_idle, now, a),
        idle_scan_spec(v, read_idle, write_idle, now, b),
    ensures
        match (a, b) {
            (IdleScan::Idle(s1, ids1, k1), IdleScan::Idle(s2, ids2, k2)) => {
                &&& s1 == s2
                &&& k1 == k2
                &&& crate::channel::table::id_model::<ID>() ==> ids1@ == ids2@
            },
            (IdleScan::Active(e1), IdleScan::Active(e2)) => e1 == e2,
            _ => false,
        },
{
    match (a, b) {
        (IdleScan::Idle(s1, ids1, k1), IdleScan::Idle(s2, ids2, k2)) => {
            lemma_key_order(k1, k2, k1);
            if key_lt(k1, k2) {
                assert(v.times.contains_key(k1) && key_lt(k1, k2));
            } else if key_lt(k2, k1) {
                assert(v.times.contains_key(k2) && key_lt(k2, k1));
            }
        },
        (IdleScan::Idle(s1, ids1, k1), IdleScan::Active(e2)) => {
            assert(v.times.contains_key(k1));
        },
        (IdleScan::Active(e1), IdleScan::Idle(s2, ids2, k2)) => {
            assert(v.times.contains_key(k2));
        },
        (IdleScan::Active(e1), IdleScan::Active(e2)) => {
            if e1 != i64::MAX {
                let k = choose|k: RouteKey| #[trigger]
                    v.times.contains_key(k) && ((read_idle > 0 && e1 == v.times[k].last_read) || (write_idle
                        > 0 && e1 == v.times[k].last_write));
                assert(e2 <= e1);
            }
            if e2 != i64::MAX {
                let k = choose|k: RouteKey| #[trigger]
                    v.times.contains_key(k) && ((read_idle > 0 && e2 == v.times[k].last_read) || (write_idle
                        > 0 && e2 == v.times[k].last_write));
                assert(e1 <= e2);
            }
        },
    }
}

/// The status names exactly the directions that are idle: a key is read
/// idle when reads are checked (a positive read idle time) and its last read
/// is older than that, write idle likewise; the status is `Both` when it is
/// idle both ways, `Read` or `Write` when only that way, and none when
/// neither.
pub proof fn law_idle_status_directions(
    read_idle: i64,
    write_idle: i64,
    now: i64,
    last_read: i64,
    last_write: i64,
)
    ensures
        ({
            let r = read_idle > 0 && last_read + read_idle < now;
            let w = write_idle > 0 && last_write + write_idle < now;
            let s = idle_status_of(read_idle, write_idle, now, last_read, last_write);
            &&& s == Some(IdleStatus::Both) <==> r && w
            &&& s == Some(IdleStatus::Read) <==> r && !w
            &&& s == Some(IdleStatus::Write) <==> w && !r
            &&& s is None <==> !r && !w
        }),
{
}

} // verus!
