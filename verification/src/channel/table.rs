//! The route table: which route leads to each peer, and which peers and
//! activity times belong to each route key.
use std::collections::HashMap;
use std::hash::Hash;

use vstd::laws_eq::obeys_concrete_eq;
use vstd::prelude::*;
use vstd::std_specs::hash::obeys_key_model;

use crate::channel::{key_less, key_lt, lemma_key_order, Route, RouteKey};
use crate::clock::now_millis;
use crate::idle::{idle_scan_spec, idle_status, idle_status_of, wait_after_scan, wait_step, IdleScan, IdleStatus, IdleStep};

verus! {

broadcast use vstd::std_specs::hash::group_hash_axioms;

/// Whether peer ids of type `ID` behave as plain values: hashing and `==`
/// agree with identity, and a clone is identical to its source. The
/// contracts of the route table speak of the table's contents only for such
/// id types (all integer types are such).
pub open spec fn id_model<ID: PartialEq + Clone>() -> bool {
    &&& obeys_key_model::<ID>()
    &&& obeys_concrete_eq::<ID>()
    &&& forall|a: ID, b: ID| #[trigger] cloned(a, b) ==> a == b
}

/// A copy of `id`.
pub(crate) fn clone_id<ID: PartialEq + Clone>(id: &ID) -> (r: ID)
    ensures
        id_model::<ID>() ==> r == *id,
{
    let r = id.clone();
    proof {
        assert(cloned(*id, r));
    }
    r
}

/// Whether `a` and `b` are the same id.
pub(crate) fn same_id<ID: PartialEq + Clone>(a: &ID, b: &ID) -> (r: bool)
    ensures
        id_model::<ID>() ==> (r <==> *a == *b),
{
    proof {
        reveal(obeys_concrete_eq);
    }
    *a == *b
}

/// `s` without the elements equal to `x`, the others in order.
pub open spec fn remove_all<ID>(s: Seq<ID>, x: ID) -> Seq<ID>
    decreases s.len(),
{
    if s.len() == 0 {
        s
    } else {
        let rest = remove_all(s.drop_last(), x);
        if s.last() == x {
            rest
        } else {
            rest.push(s.last())
        }
    }
}

/// The peers that share one route key, with the last times that data was
/// received from and sent to that route key (milliseconds since the epoch).
pub struct RouteTimes<ID> {
    pub ids: Seq<ID>,
    pub last_read: i64,
    pub last_write: i64,
}

/// The contents of a route table: the route of each peer id, and for each
/// route key in use, its peers and activity times.
#[verifier::reject_recursive_types(ID)]
pub struct RouteTableView<ID> {
    pub routes: Map<ID, Route>,
    pub times: Map<RouteKey, RouteTimes<ID>>,
}

/// The two halves of a table describe the same routes: every peer is listed
/// under the key of its route, every listed peer has a route with that key,
/// and each key lists at least one peer, none twice.
pub open spec fn table_consistent<ID>(v: RouteTableView<ID>) -> bool {
    &&& forall|id: ID| #[trigger]
        v.routes.contains_key(id) ==> {
            &&& v.times.contains_key(v.routes[id].spec_route_key())
            &&& v.times[v.routes[id].spec_route_key()].ids.contains(id)
        }
    &&& forall|k: RouteKey, id: ID|
        #![trigger v.times[k].ids.contains(id)]
        v.times.contains_key(k) && v.times[k].ids.contains(id) ==> {
            &&& v.routes.contains_key(id)
            &&& v.routes[id].spec_route_key() == k
        }
    &&& forall|k: RouteKey| #[trigger]
        v.times.contains_key(k) ==> {
            &&& v.times[k].ids.len() > 0
            &&& v.times[k].ids.no_duplicates()
        }
}

/// Whether the key `k` keeps its activity times from `a` to `b`: when `b`
/// has it, `a` had it with the same last read and last write.
pub open spec fn times_kept<ID>(
    a: Map<RouteKey, RouteTimes<ID>>,
    b: Map<RouteKey, RouteTimes<ID>>,
    k: RouteKey,
) -> bool {
    b.contains_key(k) ==> {
        &&& a.contains_key(k)
        &&& b[k].last_read == a[k].last_read
        &&& b[k].last_write == a[k].last_write
    }
}

/// One entry of the time index.
struct TimeSlot<ID> {
    key: RouteKey,
    ids: Vec<ID>,
    last_read: i64,
    last_write: i64,
}

spec fn slot_view<ID>(s: TimeSlot<ID>) -> RouteTimes<ID> {
    RouteTimes { ids: s.ids@, last_read: s.last_read, last_write: s.last_write }
}

/// The slots are in strictly increasing key order.
spec fn slots_sorted<ID>(s: Seq<TimeSlot<ID>>) -> bool {
    forall|i: int, j: int| 0 <= i < j < s.len() ==> key_lt(#[trigger] s[i].key, #[trigger] s[j].key)
}

spec fn has_key<ID>(s: Seq<TimeSlot<ID>>, k: RouteKey) -> bool {
    exists|i: int| 0 <= i < s.len() && (#[trigger] s[i]).key == k
}

/// The time index held by a sequence of slots.
spec fn slots_map<ID>(s: Seq<TimeSlot<ID>>) -> Map<RouteKey, RouteTimes<ID>> {
    Map::new(
        |k: RouteKey| has_key(s, k),
        |k: RouteKey| slot_view(s[choose|i: int| 0 <= i < s.len() && (#[trigger] s[i]).key == k]),
    )
}

proof fn lemma_slots_map<ID>(s: Seq<TimeSlot<ID>>)
    requires
        slots_sorted(s),
    ensures
        forall|i: int|
            0 <= i < s.len() ==> #[trigger] slots_map(s).contains_key(s[i].key) && slots_map(s)[s[i].key]
                == slot_view(s[i]),
        forall|k: RouteKey| #[trigger] slots_map(s).contains_key(k) <==> has_key(s, k),
{
    assert forall|i: int| 0 <= i < s.len() implies #[trigger] slots_map(s).contains_key(s[i].key)
        && slots_map(s)[s[i].key] == slot_view(s[i]) by {
        let k = s[i].key;
        assert(has_key(s, k));
        let j = choose|j: int| 0 <= j < s.len() && (#[trigger] s[j]).key == k;
        if j < i {
            assert(key_lt(s[j].key, s[i].key));
            lemma_key_order(k, k, k);
        } else if i < j {
            assert(key_lt(s[i].key, s[j].key));
            lemma_key_order(k, k, k);
        }
    }
}

/// Replacing a slot by one with the same key replaces that key's entry.
proof fn lemma_slots_update<ID>(s: Seq<TimeSlot<ID>>, i: int, x: TimeSlot<ID>)
    requires
        slots_sorted(s),
        0 <= i < s.len(),
        x.key == s[i].key,
    ensures
        slots_sorted(s.update(i, x)),
        slots_map(s.update(i, x)) == slots_map(s).insert(x.key, slot_view(x)),
{
    let t = s.update(i, x);
    assert(slots_sorted(t)) by {
        assert forall|a: int, b: int| 0 <= a < b < t.len() implies key_lt(
            #[trigger] t[a].key,
            #[trigger] t[b].key,
        ) by {
            assert(key_lt(s[a].key, s[b].key));
        }
    }
    lemma_slots_map(s);
    lemma_slots_map(t);
    let m = slots_map(s).insert(x.key, slot_view(x));
    assert forall|k: RouteKey| slots_map(t).contains_key(k) <==> m.contains_key(k) by {
        if has_key(t, k) {
            let j = choose|j: int| 0 <= j < t.len() && (#[trigger] t[j]).key == k;
            if j != i {
                assert(s[j].key == k);
            }
        }
        if has_key(s, k) {
            let j = choose|j: int| 0 <= j < s.len() && (#[trigger] s[j]).key == k;
            assert(t[j].key == k);
        }
    }
    assert forall|k: RouteKey| #[trigger] slots_map(t).contains_key(k) implies slots_map(t)[k] == m[k] by {
        let j = choose|j: int| 0 <= j < t.len() && (#[trigger] t[j]).key == k;
        assert(slots_map(t)[t[j].key] == slot_view(t[j]));
        if j != i {
            assert(slots_map(s)[s[j].key] == slot_view(s[j]));
        }
    }
    assert(slots_map(t) =~= m);
}

/// Inserting a slot where its key belongs adds that key's entry.
proof fn lemma_slots_insert<ID>(s: Seq<TimeSlot<ID>>, i: int, x: TimeSlot<ID>)
    requires
        slots_sorted(s),
        0 <= i <= s.len(),
        forall|j: int| 0 <= j < i ==> key_lt(#[trigger] s[j].key, x.key),
        i < s.len() ==> key_lt(x.key, s[i].key),
    ensures
        slots_sorted(s.insert(i, x)),
        !slots_map(s).contains_key(x.key),
        slots_map(s.insert(i, x)) == slots_map(s).insert(x.key, slot_view(x)),
{
    let t = s.insert(i, x);
    assert(slots_sorted(t)) by {
        assert forall|a: int, b: int| 0 <= a < b < t.len() implies key_lt(
            #[trigger] t[a].key,
            #[trigger] t[b].key,
        ) by {
            if a < i && b < i {
                assert(key_lt(s[a].key, s[b].key));
            } else if a < i && b == i {
            } else if a < i {
                assert(key_lt(s[a].key, s[b - 1].key));
            } else if a == i {
                if b - 1 > i {
                    assert(key_lt(s[i].key, s[b - 1].key));
                    lemma_key_order(x.key, s[i].key, s[b - 1].key);
                }
            } else {
                assert(key_lt(s[a - 1].key, s[b - 1].key));
            }
        }
    }
    lemma_slots_map(s);
    lemma_slots_map(t);
    assert(!has_key(s, x.key)) by {
        if has_key(s, x.key) {
            let j = choose|j: int| 0 <= j < s.len() && (#[trigger] s[j]).key == x.key;
            lemma_key_order(x.key, x.key, x.key);
            if j >= i {
                if j > i {
                    assert(key_lt(s[i].key, s[j].key));
                    lemma_key_order(x.key, s[i].key, s[j].key);
                }
            }
        }
    }
    let m = slots_map(s).insert(x.key, slot_view(x));
    assert forall|k: RouteKey| slots_map(t).contains_key(k) <==> m.contains_key(k) by {
        if k == x.key {
            assert(t[i].key == k);
        }
        if has_key(t, k) {
            let j = choose|j: int| 0 <= j < t.len() && (#[trigger] t[j]).key == k;
            if j < i {
                assert(s[j].key == k);
            } else if j > i {
                assert(s[j - 1].key == k);
            }
        }
        if has_key(s, k) {
            let j = choose|j: int| 0 <= j < s.len() && (#[trigger] s[j]).key == k;
            if j < i {
                assert(t[j].key == k);
            } else {
                assert(t[j + 1].key == k);
            }
        }
    }
    assert forall|k: RouteKey| #[trigger] slots_map(t).contains_key(k) implies slots_map(t)[k] == m[k] by {
        let j = choose|j: int| 0 <= j < t.len() && (#[trigger] t[j]).key == k;
        assert(slots_map(t)[t[j].key] == slot_view(t[j]));
        if j < i {
            assert(slots_map(s)[s[j].key] == slot_view(s[j]));
        } else if j > i {
            assert(slots_map(s)[s[j - 1].key] == slot_view(s[j - 1]));
        }
    }
    assert(slots_map(t) =~= m);
}

/// Removing a slot removes that key's entry.
proof fn lemma_slots_remove<ID>(s: Seq<TimeSlot<ID>>, i: int)
    requires
        slots_sorted(s),
        0 <= i < s.len(),
    ensures
        slots_sorted(s.remove(i)),
        slots_map(s.remove(i)) == slots_map(s).remove(s[i].key),
{
    let t = s.remove(i);
    assert(slots_sorted(t)) by {
        assert forall|a: int, b: int| 0 <= a < b < t.len() implies key_lt(
            #[trigger] t[a].key,
            #[trigger] t[b].key,
        ) by {
            if b < i {
                assert(key_lt(s[a].key, s[b].key));
            } else if a < i {
                assert(key_lt(s[a].key, s[b + 1].key));
            } else {
                assert(key_lt(s[a + 1].key, s[b + 1].key));
            }
        }
    }
    lemma_slots_map(s);
    lemma_slots_map(t);
    let m = slots_map(s).remove(s[i].key);
    assert forall|k: RouteKey| slots_map(t).contains_key(k) <==> m.contains_key(k) by {
        if has_key(t, k) {
            let j = choose|j: int| 0 <= j < t.len() && (#[trigger] t[j]).key == k;
            if j < i {
                assert(s[j].key == k);
                assert(key_lt(s[j].key, s[i].key));
                lemma_key_order(k, k, k);
            } else {
                assert(s[j + 1].key == k);
                assert(key_lt(s[i].key, s[j + 1].key));
                lemma_key_order(k, k, k);
            }
        }
        if has_key(s, k) && k != s[i].key {
            let j = choose|j: int| 0 <= j < s.len() && (#[trigger] s[j]).key == k;
            if j < i {
                assert(t[j].key == k);
            } else {
                assert(t[j - 1].key == k);
            }
        }
    }
    assert forall|k: RouteKey| #[trigger] slots_map(t).contains_key(k) implies slots_map(t)[k] == m[k] by {
        let j = choose|j: int| 0 <= j < t.len() && (#[trigger] t[j]).key == k;
        assert(slots_map(t)[t[j].key] == slot_view(t[j]));
        if j < i {
            assert(slots_map(s)[s[j].key] == slot_view(s[j]));
        } else {
            assert(slots_map(s)[s[j + 1].key] == slot_view(s[j + 1]));
        }
    }
    assert(slots_map(t) =~= m);
}


proof fn lemma_push_contains<ID>(q: Seq<ID>, e: ID, y: ID)
    ensures
        q.push(e).contains(y) <==> (q.contains(y) || y == e),
{
    let s = q.push(e);
    if q.contains(y) {
        let j = choose|j: int| 0 <= j < q.len() && q[j] == y;
        assert(s[j] == y);
    }
    if y == e {
        assert(s[q.len() as int] == y);
    }
    if s.contains(y) {
        let j = choose|j: int| 0 <= j < s.len() && s[j] == y;
        if j < q.len() {
            assert(q[j] == y);
        }
    }
}

/// Facts about `remove_all`.
pub proof fn lemma_remove_all<ID>(s: Seq<ID>, x: ID)
    ensures
        forall|y: ID| #[trigger] remove_all(s, x).contains(y) <==> (s.contains(y) && y != x),
        s.no_duplicates() ==> remove_all(s, x).no_duplicates(),
        remove_all(s, x).len() <= s.len(),
        !s.contains(x) ==> remove_all(s, x) == s,
    decreases s.len(),
{
    if s.len() > 0 {
        let p = s.drop_last();
        lemma_remove_all(p, x);
        assert(s == p.push(s.last()));
        let r = remove_all(p, x);
        assert forall|y: ID| #[trigger] remove_all(s, x).contains(y) <==> (s.contains(y) && y != x) by {
            lemma_push_contains(p, s.last(), y);
            if s.last() != x {
                lemma_push_contains(r, s.last(), y);
            }
        }
        if s.no_duplicates() {
            assert(p.no_duplicates()) by {
                assert forall|a: int, b: int| 0 <= a < b < p.len() implies p[a] != p[b] by {
                    assert(s[a] == p[a] && s[b] == p[b]);
                }
            }
            if s.last() != x {
                assert(!p.contains(s.last())) by {
                    if p.contains(s.last()) {
                        let j = choose|j: int| 0 <= j < p.len() && p[j] == s.last();
                        assert(s[j] == s[s.len() - 1]);
                    }
                }
                assert(!remove_all(p, x).contains(s.last()));
            }
        }
        if !s.contains(x) {
            assert(!p.contains(x)) by {
                if p.contains(x) {
                    let j = choose|j: int| 0 <= j < p.len() && p[j] == x;
                    assert(s[j] == x);
                }
            }
            assert(s.last() != x);
        }
    }
}

/// `times` after taking `id` out of the peers of `key`; the entry goes when
/// no peer is left.
pub open spec fn times_without<ID>(
    times: Map<RouteKey, RouteTimes<ID>>,
    key: RouteKey,
    id: ID,
) -> Map<RouteKey, RouteTimes<ID>> {
    if times.contains_key(key) {
        let t = times[key];
        let rest = remove_all(t.ids, id);
        if rest.len() == 0 {
            times.remove(key)
        } else {
            times.insert(key, RouteTimes { ids: rest, last_read: t.last_read, last_write: t.last_write })
        }
    } else {
        times
    }
}

/// `times` after listing `id` among the peers of `key`; a new entry has
/// `now` as its last read and last write.
pub open spec fn times_with<ID>(
    times: Map<RouteKey, RouteTimes<ID>>,
    key: RouteKey,
    id: ID,
    now: i64,
) -> Map<RouteKey, RouteTimes<ID>> {
    if times.contains_key(key) {
        let t = times[key];
        if t.ids.contains(id) {
            times
        } else {
            times.insert(
                key,
                RouteTimes { ids: t.ids.push(id), last_read: t.last_read, last_write: t.last_write },
            )
        }
    } else {
        times.insert(key, RouteTimes { ids: seq![id], last_read: now, last_write: now })
    }
}

/// The table after `id` gets `route` at time `now`: the route replaces any
/// earlier route of `id`; `id` leaves the key of an earlier route with
/// another key and joins the key of `route`.
pub open spec fn after_add<ID>(
    v: RouteTableView<ID>,
    id: ID,
    route: Route,
    now: i64,
) -> RouteTableView<ID> {
    let key = route.spec_route_key();
    let times = if v.routes.contains_key(id) && v.routes[id].spec_route_key() != key {
        times_without(v.times, v.routes[id].spec_route_key(), id)
    } else {
        v.times
    };
    RouteTableView { routes: v.routes.insert(id, route), times: times_with(times, key, id, now) }
}

/// The table after the route of `id` is removed.
pub open spec fn after_remove<ID>(v: RouteTableView<ID>, id: ID) -> RouteTableView<ID> {
    if v.routes.contains_key(id) {
        RouteTableView {
            routes: v.routes.remove(id),
            times: times_without(v.times, v.routes[id].spec_route_key(), id),
        }
    } else {
        v
    }
}

/// The table after the metric and round-trip time of the route of `id` are set.
pub open spec fn after_update<ID>(
    v: RouteTableView<ID>,
    id: ID,
    metric: u8,
    rt: i64,
) -> RouteTableView<ID> {
    if v.routes.contains_key(id) {
        let r = v.routes[id];
        RouteTableView {
            routes: v.routes.insert(id, Route { index: r.index, addr: r.addr, metric, rt }),
            times: v.times,
        }
    } else {
        v
    }
}

/// The table after data from `key` was received at `now`.
pub open spec fn after_read<ID>(v: RouteTableView<ID>, key: RouteKey, now: i64) -> RouteTableView<ID> {
    if v.times.contains_key(key) {
        let t = v.times[key];
        RouteTableView {
            routes: v.routes,
            times: v.times.insert(key, RouteTimes { ids: t.ids, last_read: now, last_write: t.last_write }),
        }
    } else {
        v
    }
}

/// The table after data was sent to `key` at `now`.
pub open spec fn after_write<ID>(v: RouteTableView<ID>, key: RouteKey, now: i64) -> RouteTableView<ID> {
    if v.times.contains_key(key) {
        let t = v.times[key];
        RouteTableView {
            routes: v.routes,
            times: v.times.insert(key, RouteTimes { ids: t.ids, last_read: t.last_read, last_write: now }),
        }
    } else {
        v
    }
}

/// No route key is in use.
pub open spec fn no_route_keys<ID>(v: RouteTableView<ID>) -> bool {
    forall|k: RouteKey| !v.times.contains_key(k)
}

/// Taking a peer out of a key keeps a table consistent once that peer has no route.
proof fn lemma_without_consistent<ID>(v: RouteTableView<ID>, id: ID)
    requires
        table_consistent(v),
        v.routes.contains_key(id),
    ensures
        table_consistent(after_remove(v, id)),
{
    let key = v.routes[id].spec_route_key();
    let t = v.times[key];
    lemma_remove_all(t.ids, id);
    let w = after_remove(v, id);
    assert forall|i: ID| #[trigger] w.routes.contains_key(i) implies {
        &&& w.times.contains_key(w.routes[i].spec_route_key())
        &&& w.times[w.routes[i].spec_route_key()].ids.contains(i)
    } by {
        assert(v.routes.contains_key(i));
        let k = v.routes[i].spec_route_key();
        assert(v.times[k].ids.contains(i));
        if k == key {
            assert(remove_all(t.ids, id).contains(i));
        }
    }
    assert forall|k: RouteKey, i: ID|
        w.times.contains_key(k) && #[trigger] w.times[k].ids.contains(i) implies {
        &&& w.routes.contains_key(i)
        &&& w.routes[i].spec_route_key() == k
    } by {
        if k == key {
            assert(t.ids.contains(i));
        } else {
            assert(v.times[k].ids.contains(i));
            if i == id {
                assert(v.routes[id].spec_route_key() == k);
            }
        }
    }
}

/// Adding a route keeps a table consistent.
proof fn lemma_add_consistent<ID>(v: RouteTableView<ID>, id: ID, route: Route, now: i64)
    requires
        table_consistent(v),
    ensures
        table_consistent(after_add(v, id, route, now)),
{
    let key = route.spec_route_key();
    let u = if v.routes.contains_key(id) && v.routes[id].spec_route_key() != key {
        lemma_without_consistent(v, id);
        after_remove(v, id)
    } else {
        v
    };
    // `u`: consistent, and `id` has no route in `u` or its route's key is `key`.
    assert(table_consistent(u));
    assert(u.routes.contains_key(id) ==> u.routes[id].spec_route_key() == key);
    assert(after_add(v, id, route, now).times == times_with(u.times, key, id, now));
    let w = after_add(v, id, route, now);
    assert(w.routes == u.routes.insert(id, route));
    if u.times.contains_key(key) {
        let t = u.times[key];
        if !t.ids.contains(id) {
            assert(t.ids.push(id).no_duplicates()) by {
                let s = t.ids.push(id);
                assert forall|a: int, b: int| 0 <= a < b < s.len() implies s[a] != s[b] by {
                    if b == s.len() - 1 {
                        assert(t.ids[a] == s[a]);
                    } else {
                        assert(t.ids[a] == s[a] && t.ids[b] == s[b]);
                    }
                }
            }
        }
    }
    assert forall|i: ID| #[trigger] w.routes.contains_key(i) implies {
        &&& w.times.contains_key(w.routes[i].spec_route_key())
        &&& w.times[w.routes[i].spec_route_key()].ids.contains(i)
    } by {
        if i == id {
            if u.times.contains_key(key) && !u.times[key].ids.contains(id) {
                assert(u.times[key].ids.push(id)[u.times[key].ids.len() as int] == id);
            }
            if !u.times.contains_key(key) {
                assert(seq![id][0] == id);
            }
        } else {
            let k = u.routes[i].spec_route_key();
            assert(u.times[k].ids.contains(i));
            if k == key && !u.times[key].ids.contains(id) {
                let j = choose|j: int| 0 <= j < u.times[k].ids.len() && u.times[k].ids[j] == i;
                assert(u.times[key].ids.push(id)[j] == i);
            }
        }
    }
    assert forall|k: RouteKey, i: ID|
        w.times.contains_key(k) && #[trigger] w.times[k].ids.contains(i) implies {
        &&& w.routes.contains_key(i)
        &&& w.routes[i].spec_route_key() == k
    } by {
        if k == key {
            if i != id {
                if u.times.contains_key(key) {
                    let s = w.times[k].ids;
                    let j = choose|j: int| 0 <= j < s.len() && s[j] == i;
                    if !u.times[key].ids.contains(id) {
                        assert(j < u.times[key].ids.len());
                        assert(u.times[key].ids[j] == i);
                    }
                    assert(u.times[key].ids.contains(i));
                } else {
                    let s = w.times[k].ids;
                    let j = choose|j: int| 0 <= j < s.len() && s[j] == i;
                    assert(s[j] == id);
                }
            }
        } else {
            assert(u.times[k].ids.contains(i));
            if i == id {
                assert(u.routes[id].spec_route_key() == k);
            }
        }
    }
}

/// Setting the metric and round-trip time keeps a table consistent.
proof fn lemma_update_consistent<ID>(v: RouteTableView<ID>, id: ID, metric: u8, rt: i64)
    requires
        table_consistent(v),
    ensures
        table_consistent(after_update(v, id, metric, rt)),
{
    let w = after_update(v, id, metric, rt);
    assert forall|i: ID| #[trigger] w.routes.contains_key(i) implies {
        &&& w.times.contains_key(w.routes[i].spec_route_key())
        &&& w.times[w.routes[i].spec_route_key()].ids.contains(i)
    } by {
        assert(v.routes.contains_key(i));
        assert(w.routes[i].spec_route_key() == v.routes[i].spec_route_key());
    }
    assert forall|k: RouteKey, i: ID|
        w.times.contains_key(k) && #[trigger] w.times[k].ids.contains(i) implies {
        &&& w.routes.contains_key(i)
        &&& w.routes[i].spec_route_key() == k
    } by {
        assert(v.times[k].ids.contains(i));
    }
}

/// Recording activity times keeps a table consistent.
proof fn lemma_times_consistent<ID>(v: RouteTableView<ID>, key: RouteKey, now: i64)
    requires
        table_consistent(v),
    ensures
        table_consistent(after_read(v, key, now)),
        table_consistent(after_write(v, key, now)),
{
    let w = after_read(v, key, now);
    assert forall|k: RouteKey, i: ID|
        w.times.contains_key(k) && #[trigger] w.times[k].ids.contains(i) implies {
        &&& w.routes.contains_key(i)
        &&& w.routes[i].spec_route_key() == k
    } by {
        assert(v.times[k].ids.contains(i));
    }
    let w = after_write(v, key, now);
    assert forall|k: RouteKey, i: ID|
        w.times.contains_key(k) && #[trigger] w.times[k].ids.contains(i) implies {
        &&& w.routes.contains_key(i)
        &&& w.routes[i].spec_route_key() == k
    } by {
        assert(v.times[k].ids.contains(i));
    }
}


/// A route reads back as written: after `id` gets `route`, its route is
/// `route`, it is listed under the key of `route`, and the table stays
/// consistent.
pub proof fn law_add_then_route<ID>(v: RouteTableView<ID>, id: ID, route: Route, now: i64)
    requires
        table_consistent(v),
    ensures
        after_add(v, id, route, now).routes.contains_key(id),
        after_add(v, id, route, now).routes[id] == route,
        after_add(v, id, route, now).times.contains_key(route.spec_route_key()),
        after_add(v, id, route, now).times[route.spec_route_key()].ids.contains(id),
        table_consistent(after_add(v, id, route, now)),
{
    lemma_add_consistent(v, id, route, now);
}

/// A removed route is gone: the peer has no route and is listed under no key.
pub proof fn law_remove_then_route<ID>(v: RouteTableView<ID>, id: ID)
    requires
        table_consistent(v),
    ensures
        !after_remove(v, id).routes.contains_key(id),
        forall|k: RouteKey| #[trigger]
            after_remove(v, id).times.contains_key(k) ==> !after_remove(v, id).times[k].ids.contains(id),
        table_consistent(after_remove(v, id)),
{
    if v.routes.contains_key(id) {
        lemma_without_consistent(v, id);
    }
    let w = after_remove(v, id);
    assert forall|k: RouteKey| #[trigger] w.times.contains_key(k) implies !w.times[k].ids.contains(id) by {
        if w.times[k].ids.contains(id) {
            assert(w.routes.contains_key(id));
        }
    }
}

/// Removing the route of a peer that had none before it was added undoes
/// the adding: the table is as it was.
pub proof fn law_add_remove_undo<ID>(v: RouteTableView<ID>, id: ID, route: Route, now: i64)
    requires
        table_consistent(v),
        !v.routes.contains_key(id),
    ensures
        after_remove(after_add(v, id, route, now), id) == v,
{
    let key = route.spec_route_key();
    let w = after_add(v, id, route, now);
    let u = after_remove(w, id);
    assert(w.routes.contains_key(id));
    assert(u.routes =~= v.routes);
    if v.times.contains_key(key) {
        let t = v.times[key];
        assert(!t.ids.contains(id));
        lemma_remove_all(t.ids.push(id), id);
        lemma_remove_all(t.ids, id);
        assert(remove_all(t.ids.push(id), id) == remove_all(t.ids, id)) by {
            assert(t.ids.push(id).drop_last() == t.ids);
        }
        assert(w.times[key].ids == t.ids.push(id));
        assert(u.times =~= v.times) by {
            assert forall|k: RouteKey| #[trigger] u.times.contains_key(k) == v.times.contains_key(k) by {}
            assert forall|k: RouteKey| u.times.contains_key(k) implies #[trigger] u.times[k] == v.times[k] by {
                if k == key {
                    assert(u.times[k].ids == t.ids);
                }
            }
        }
    } else {
        assert(w.times[key].ids == seq![id]);
        assert(remove_all(seq![id], id) == Seq::<ID>::empty()) by {
            assert(seq![id].drop_last() == Seq::<ID>::empty());
            assert(seq![id].last() == id);
            assert(remove_all(Seq::<ID>::empty(), id) == Seq::<ID>::empty());
        }
        assert(u.times =~= v.times);
    }
}

/// A route key that comes into use with a new route starts with its
/// times at the moment of adding, so it is reported idle once more than the
/// idle time has passed with no traffic, and not before.
pub proof fn law_new_route_goes_idle<ID>(
    v: RouteTableView<ID>,
    id: ID,
    route: Route,
    t0: i64,
    read_idle: i64,
    write_idle: i64,
    now: i64,
)
    requires
        table_consistent(v),
        !v.times.contains_key(route.spec_route_key()),
    ensures
        ({
            let t = after_add(v, id, route, t0).times[route.spec_route_key()];
            &&& t.last_read == t0
            &&& t.last_write == t0
            &&& (read_idle > 0 && t0 < now - read_idle) || (write_idle > 0 && t0 < now - write_idle)
                <==> idle_status_of(read_idle, write_idle, now, t.last_read, t.last_write) is Some
        }),
{
    let key = route.spec_route_key();
    if v.routes.contains_key(id) && v.routes[id].spec_route_key() != key {
        lemma_without_consistent(v, id);
        let u = after_remove(v, id);
        assert(!u.times.contains_key(key));
    }
}

/// Traffic resets idleness: right after data from a route key is received
/// it is not read idle, and right after data is sent to it, not write idle.
pub proof fn law_traffic_resets_idle<ID>(
    v: RouteTableView<ID>,
    key: RouteKey,
    now: i64,
    read_idle: i64,
    write_idle: i64,
)
    requires
        v.times.contains_key(key),
    ensures
        ({
            let t = after_read(v, key, now).times[key];
            let s = idle_status_of(read_idle, write_idle, now, t.last_read, t.last_write);
            s != Some(IdleStatus::Read) && s != Some(IdleStatus::Both)
        }),
        ({
            let t = after_write(v, key, now).times[key];
            let s = idle_status_of(read_idle, write_idle, now, t.last_read, t.last_write);
            s != Some(IdleStatus::Write) && s != Some(IdleStatus::Both)
        }),
{
}

/// An idle report names exactly the peers whose route uses the idle route
/// key.
pub proof fn law_idle_report_peers<ID: PartialEq + Clone>(
    v: RouteTableView<ID>,
    read_idle: i64,
    write_idle: i64,
    now: i64,
    status: IdleStatus,
    ids: Vec<ID>,
    key: RouteKey,
)
    requires
        id_model::<ID>(),
        table_consistent(v),
        idle_scan_spec(v, read_idle, write_idle, now, IdleScan::Idle(status, ids, key)),
    ensures
        forall|id: ID| #[trigger] ids@.contains(id) <==> (v.routes.contains_key(id) && v.routes[id].spec_route_key() == key),
        ids@.no_duplicates(),
{
    assert forall|id: ID| #[trigger] ids@.contains(id) <==> (v.routes.contains_key(id) && v.routes[id].spec_route_key()
        == key) by {
        if ids@.contains(id) {
            assert(v.times[key].ids.contains(id));
        }
    }
}

/// Every route key in use leads back to a peer whose route has that key.
pub proof fn law_route_to_id<ID>(v: RouteTableView<ID>, k: RouteKey)
    requires
        table_consistent(v),
        v.times.contains_key(k),
    ensures
        v.times[k].ids.len() > 0,
        v.routes.contains_key(v.times[k].ids[0]),
        v.routes[v.times[k].ids[0]].spec_route_key() == k,
{
    assert(v.times[k].ids.contains(v.times[k].ids[0]));
}

/// Setting the metric and round-trip time changes nothing else: the route
/// keys, the peers listed under them and their times stay.
pub proof fn law_update_keeps_keys<ID>(v: RouteTableView<ID>, id: ID, metric: u8, rt: i64)
    requires
        table_consistent(v),
    ensures
        after_update(v, id, metric, rt).times == v.times,
        after_update(v, id, metric, rt).routes.dom() == v.routes.dom(),
        v.routes.contains_key(id) ==> {
            &&& after_update(v, id, metric, rt).routes[id].spec_route_key() == v.routes[id].spec_route_key()
            &&& after_update(v, id, metric, rt).routes[id].metric == metric
            &&& after_update(v, id, metric, rt).routes[id].rt == rt
        },
        table_consistent(after_update(v, id, metric, rt)),
{
    lemma_update_consistent(v, id, metric, rt);
    if v.routes.contains_key(id) {
        assert(after_update(v, id, metric, rt).routes.dom() =~= v.routes.dom());
    }
}

/// Recording traffic changes only the times of that route key: routes and
/// listed peers stay.
pub proof fn law_traffic_keeps_routes<ID>(v: RouteTableView<ID>, key: RouteKey, now: i64)
    requires
        table_consistent(v),
    ensures
        after_read(v, key, now).routes == v.routes,
        after_write(v, key, now).routes == v.routes,
        after_read(v, key, now).times.dom() == v.times.dom(),
        after_write(v, key, now).times.dom() == v.times.dom(),
        v.times.contains_key(key) ==> after_read(v, key, now).times[key].ids == v.times[key].ids
            && after_read(v, key, now).times[key].last_read == now,
        v.times.contains_key(key) ==> after_write(v, key, now).times[key].ids == v.times[key].ids
            && after_write(v, key, now).times[key].last_write == now,
        table_consistent(after_read(v, key, now)),
        table_consistent(after_write(v, key, now)),
{
    lemma_times_consistent(v, key, now);
    if v.times.contains_key(key) {
        assert(after_read(v, key, now).times.dom() =~= v.times.dom());
        assert(after_write(v, key, now).times.dom() =~= v.times.dom());
    }
}

/// Recording a send at a route key sets that key's last write time to the
/// time of the send and changes nothing else: its peers and its last read
/// time stay, every other key keeps its times, and no route changes. A key
/// not in use stays unused.
pub proof fn law_write_sets_only_write_time<ID>(v: RouteTableView<ID>, key: RouteKey, now: i64)
    ensures
        after_write(v, key, now).routes == v.routes,
        after_write(v, key, now).times.dom() == v.times.dom(),
        v.times.contains_key(key) ==> {
            &&& after_write(v, key, now).times[key].last_write == now
            &&& after_write(v, key, now).times[key].last_read == v.times[key].last_read
            &&& after_write(v, key, now).times[key].ids == v.times[key].ids
        },
        forall|k: RouteKey|
            k != key && #[trigger] v.times.contains_key(k) ==> after_write(v, key, now).times[k] == v.times[k],
{
    if v.times.contains_key(key) {
        assert(after_write(v, key, now).times.dom() =~= v.times.dom());
    }
}

/// Recording a receipt at a route key sets that key's last read time to
/// the time of the receipt and changes nothing else: its peers and its last
/// write time stay, every other key keeps its times, and no route changes.
/// A key not in use stays unused.
pub proof fn law_read_sets_only_read_time<ID>(v: RouteTableView<ID>, key: RouteKey, now: i64)
    ensures
        after_read(v, key, now).routes == v.routes,
        after_read(v, key, now).times.dom() == v.times.dom(),
        v.times.contains_key(key) ==> {
            &&& after_read(v, key, now).times[key].last_read == now
            &&& after_read(v, key, now).times[key].last_write == v.times[key].last_write
            &&& after_read(v, key, now).times[key].ids == v.times[key].ids
        },
        forall|k: RouteKey|
            k != key && #[trigger] v.times.contains_key(k) ==> after_read(v, key, now).times[k] == v.times[k],
{
    if v.times.contains_key(key) {
        assert(after_read(v, key, now).times.dom() =~= v.times.dom());
    }
}

/// Updating the route of `id` sets the metric and round-trip time of that
/// one route, on the same socket and address, and touches nothing else:
/// every other peer keeps its route (also a peer behind the same route key),
/// no peer gains or loses a route, and the route keys keep their peers and
/// times. A peer without a route still has none.
pub proof fn law_update_touches_one_route<ID>(v: RouteTableView<ID>, id: ID, metric: u8, rt: i64)
    ensures
        after_update(v, id, metric, rt).times == v.times,
        after_update(v, id, metric, rt).routes.dom() == v.routes.dom(),
        forall|other: ID|
            other != id && #[trigger] v.routes.contains_key(other) ==> after_update(v, id, metric, rt).routes[other]
                == v.routes[other],
        v.routes.contains_key(id) ==> after_update(v, id, metric, rt).routes[id] == (Route {
            index: v.routes[id].index,
            addr: v.routes[id].addr,
            metric,
            rt,
        }),
{
    if v.routes.contains_key(id) {
        assert(after_update(v, id, metric, rt).routes.dom() =~= v.routes.dom());
    }
}

/// The peers of the slots, slot after slot.
spec fn flat<ID>(s: Seq<TimeSlot<ID>>) -> Seq<ID>
    decreases s.len(),
{
    if s.len() == 0 {
        Seq::empty()
    } else {
        flat(s.drop_last()) + s.last().ids@
    }
}

proof fn lemma_flat_step<ID>(s: Seq<TimeSlot<ID>>, a: int)
    requires
        0 <= a < s.len(),
    ensures
        flat(s.take(a + 1)) == flat(s.take(a)) + s[a].ids@,
{
    assert(s.take(a + 1).drop_last() == s.take(a));
}

proof fn lemma_flat_contains<ID>(s: Seq<TimeSlot<ID>>, x: ID, a: int)
    requires
        0 <= a < s.len(),
        s[a].ids@.contains(x),
    ensures
        flat(s).contains(x),
    decreases s.len(),
{
    let p = s.drop_last();
    if a == s.len() - 1 {
        let j = choose|j: int| 0 <= j < s[a].ids@.len() && s[a].ids@[j] == x;
        assert(flat(s)[flat(p).len() + j] == x);
    } else {
        assert(p[a] == s[a]);
        lemma_flat_contains(p, x, a);
        let j = choose|j: int| 0 <= j < flat(p).len() && flat(p)[j] == x;
        assert(flat(s)[j] == x);
    }
}

proof fn lemma_flat_member<ID>(s: Seq<TimeSlot<ID>>, x: ID)
    requires
        flat(s).contains(x),
    ensures
        exists|a: int| 0 <= a < s.len() && (#[trigger] s[a]).ids@.contains(x),
    decreases s.len(),
{
    let p = s.drop_last();
    let j = choose|j: int| 0 <= j < flat(s).len() && flat(s)[j] == x;
    if j < flat(p).len() {
        assert(flat(p)[j] == x);
        lemma_flat_member(p, x);
        let a = choose|a: int| 0 <= a < p.len() && (#[trigger] p[a]).ids@.contains(x);
        assert(s[a] == p[a]);
    } else {
        let q = s.last().ids@;
        assert(q[j - flat(p).len()] == x);
        assert(s[s.len() - 1].ids@.contains(x));
    }
}

proof fn lemma_flat_no_duplicates<ID>(s: Seq<TimeSlot<ID>>)
    requires
        forall|x: int| 0 <= x < s.len() ==> (#[trigger] s[x]).ids@.no_duplicates(),
        forall|x: int, y: int, id: ID|
            #![trigger s[x].ids@.contains(id), s[y].ids@.contains(id)]
            0 <= x < y < s.len() && s[x].ids@.contains(id) ==> !s[y].ids@.contains(id),
    ensures
        flat(s).no_duplicates(),
    decreases s.len(),
{
    if s.len() > 0 {
        let p = s.drop_last();
        assert forall|x: int, y: int, id: ID|
            #![trigger p[x].ids@.contains(id), p[y].ids@.contains(id)]
            0 <= x < y < p.len() && p[x].ids@.contains(id) implies !p[y].ids@.contains(id) by {
            assert(p[x] == s[x] && p[y] == s[y]);
        }
        assert forall|x: int| 0 <= x < p.len() implies (#[trigger] p[x]).ids@.no_duplicates() by {
            assert(p[x] == s[x]);
        }
        lemma_flat_no_duplicates(p);
        let f = flat(p);
        let q = s.last().ids@;
        let t = flat(s);
        assert(t == f + q);
        assert forall|i: int, j: int| 0 <= i < j < t.len() implies t[i] != t[j] by {
            if j < f.len() {
            } else if i >= f.len() {
                assert(q[i - f.len()] == t[i] && q[j - f.len()] == t[j]);
            } else {
                assert(f.contains(t[i]));
                lemma_flat_member(p, t[i]);
                let a = choose|a: int| 0 <= a < p.len() && (#[trigger] p[a]).ids@.contains(t[i]);
                assert(s[a] == p[a]);
                assert(q[j - f.len()] == t[j]);
                if t[i] == t[j] {
                    assert(s[s.len() - 1].ids@.contains(t[j]));
                }
            }
        }
    }
}

/// The route table of a channel: the route of each peer and, for each route
/// key in use, the peers behind it and the last times data went each way.
pub struct RouteTable<ID> {
    routes: HashMap<ID, Route>,
    slots: Vec<TimeSlot<ID>>,
}

impl<ID> View for RouteTable<ID> {
    type V = RouteTableView<ID>;

    closed spec fn view(&self) -> RouteTableView<ID> {
        RouteTableView { routes: self.routes@, times: slots_map(self.slots@) }
    }
}

/// Whether `v` lists `id`.
fn ids_contain<ID: PartialEq + Clone>(v: &Vec<ID>, id: &ID) -> (r: bool)
    ensures
        id_model::<ID>() ==> r == v@.contains(*id),
{
    let mut i: usize = 0;
    while i < v.len()
        invariant
            i <= v@.len(),
            id_model::<ID>() ==> forall|j: int| 0 <= j < i ==> v@[j] != *id,
        decreases v@.len() - i,
    {
        if same_id(&v[i], id) {
            return true;
        }
        i = i + 1;
    }
    false
}

/// The ids of `v` other than `id`, in order.
fn ids_without<ID: PartialEq + Clone>(v: &Vec<ID>, id: &ID) -> (r: Vec<ID>)
    ensures
        id_model::<ID>() ==> r@ == remove_all(v@, *id),
{
    let mut out: Vec<ID> = Vec::new();
    let mut i: usize = 0;
    while i < v.len()
        invariant
            i <= v@.len(),
            id_model::<ID>() ==> out@ == remove_all(v@.take(i as int), *id),
        decreases v@.len() - i,
    {
        proof {
            assert(v@.take(i + 1).drop_last() == v@.take(i as int));
            assert(v@.take(i + 1).last() == v@[i as int]);
        }
        if !same_id(&v[i], id) {
            out.push(clone_id(&v[i]));
        }
        i = i + 1;
    }
    proof {
        assert(v@.take(v@.len() as int) == v@);
    }
    out
}

impl<ID: Eq + Hash + Clone> RouteTable<ID> {
    /// The table is well formed: its slots are in key order and, for id types
    /// that behave as plain values, its two halves agree.
    pub closed spec fn wf(&self) -> bool {
        &&& slots_sorted(self.slots@)
        &&& id_model::<ID>() ==> table_consistent(self@)
    }

    /// A well-formed table's two halves agree.
    pub proof fn lemma_consistent(&self)
        requires
            self.wf(),
            id_model::<ID>(),
        ensures
            table_consistent(self@),
    {
    }

    /// An empty table.
    pub fn new() -> (t: Self)
        ensures
            t.wf(),
            t@.routes == Map::<ID, Route>::empty(),
            t@.times == Map::<RouteKey, RouteTimes<ID>>::empty(),
    {
        let t = RouteTable { routes: HashMap::new(), slots: Vec::new() };
        proof {
            assert(slots_map(t.slots@) =~= Map::<RouteKey, RouteTimes<ID>>::empty());
        }
        t
    }

    /// The position of `key` among the slots: every slot before it has a
    /// smaller key, and `found` tells whether the slot at it has this key.
    fn position(&self, key: &RouteKey) -> (r: (usize, bool))
        requires
            slots_sorted(self.slots@),
        ensures
            r.0 <= self.slots@.len(),
            forall|j: int| 0 <= j < r.0 ==> key_lt(#[trigger] self.slots@[j].key, *key),
            r.0 < self.slots@.len() ==> key_lt(*key, self.slots@[r.0 as int].key) || self.slots@[r.0 as int].key == *key,
            r.1 <==> (r.0 < self.slots@.len() && self.slots@[r.0 as int].key == *key),
            r.1 <==> slots_map(self.slots@).contains_key(*key),
    {
        let mut i: usize = 0;
        while i < self.slots.len() && key_less(&self.slots[i].key, key)
            invariant
                i <= self.slots@.len(),
                forall|j: int| 0 <= j < i ==> key_lt(#[trigger] self.slots@[j].key, *key),
            decreases self.slots@.len() - i,
        {
            i = i + 1;
        }
        let found = i < self.slots.len() && self.slots[i].key == *key;
        proof {
            lemma_slots_map(self.slots@);
            if i < self.slots@.len() {
                lemma_key_order(*key, self.slots@[i as int].key, *key);
            }
            if !found && has_key(self.slots@, *key) {
                let j = choose|j: int| 0 <= j < self.slots@.len() && (#[trigger] self.slots@[j]).key == *key;
                lemma_key_order(*key, *key, *key);
                if j > i {
                    assert(key_lt(self.slots@[i as int].key, self.slots@[j].key));
                    lemma_key_order(*key, self.slots@[i as int].key, *key);
                }
            }
        }
        (i, found)
    }

    /// Takes `id` out of the peers of `key`, dropping the slot when no peer is left.
    fn take_id(&mut self, key: &RouteKey, id: &ID)
        requires
            slots_sorted(old(self).slots@),
        ensures
            slots_sorted(final(self).slots@),
            final(self).routes == old(self).routes,
            forall|k: RouteKey| #[trigger]
                times_kept(slots_map(old(self).slots@), slots_map(final(self).slots@), k),
            forall|k: RouteKey|
                k != *key ==> (#[trigger] slots_map(final(self).slots@).contains_key(k) <==> slots_map(
                    old(self).slots@,
                ).contains_key(k)),
            id_model::<ID>() ==> slots_map(final(self).slots@) == times_without(
                slots_map(old(self).slots@),
                *key,
                *id,
            ),
    {
        let (i, found) = self.position(key);
        if found {
            proof {
                lemma_slots_map(self.slots@);
            }
            let rest = ids_without(&self.slots[i].ids, id);
            if rest.len() == 0 {
                proof {
                    lemma_slots_remove(self.slots@, i as int);
                }
                self.slots.remove(i);
            } else {
                let ghost before = self.slots@;
                self.slots[i].ids = rest;
                proof {
                    assert(self.slots@ == before.update(i as int, self.slots@[i as int]));
                    lemma_slots_update(before, i as int, self.slots@[i as int]);
                }
            }
        }
    }

    /// Lists `id` among the peers of `key`, making a slot with times `now` when
    /// the key has none.
    fn put_id(&mut self, key: &RouteKey, id: &ID, now: i64)
        requires
            slots_sorted(old(self).slots@),
        ensures
            slots_sorted(final(self).slots@),
            final(self).routes == old(self).routes,
            slots_map(final(self).slots@).contains_key(*key),
            !slots_map(old(self).slots@).contains_key(*key) ==> slots_map(final(self).slots@)[*key].last_read
                == now && slots_map(final(self).slots@)[*key].last_write == now,
            forall|k: RouteKey|
                #![trigger slots_map(final(self).slots@).contains_key(k)]
                #![trigger slots_map(old(self).slots@).contains_key(k)]
                slots_map(old(self).slots@).contains_key(k) ==> slots_map(final(self).slots@).contains_key(k),
            forall|k: RouteKey|
                k != *key ==> #[trigger] times_kept(slots_map(old(self).slots@), slots_map(final(self).slots@), k),
            slots_map(old(self).slots@).contains_key(*key) ==> times_kept(
                slots_map(old(self).slots@),
                slots_map(final(self).slots@),
                *key,
            ),
            id_model::<ID>() ==> slots_map(final(self).slots@) == times_with(
                slots_map(old(self).slots@),
                *key,
                *id,
                now,
            ),
    {
        let (i, found) = self.position(key);
        proof {
            lemma_slots_map(self.slots@);
        }
        if found {
            if !ids_contain(&self.slots[i].ids, id) {
                let ghost before = self.slots@;
                let copy = clone_id(id);
                self.slots[i].ids.push(copy);
                proof {
                    assert(self.slots@ == before.update(i as int, self.slots@[i as int]));
                    lemma_slots_update(before, i as int, self.slots@[i as int]);
                }
            }
        } else {
            let mut ids: Vec<ID> = Vec::new();
            ids.push(clone_id(id));
            let slot = TimeSlot { key: *key, ids, last_read: now, last_write: now };
            proof {
                lemma_slots_insert(self.slots@, i as int, slot);
                assert(slot_view(slot).ids =~= seq![*id] || !id_model::<ID>());
            }
            self.slots.insert(i, slot);
        }
    }

    /// Gives `id` the route `route`, as of time `now`: an earlier route of
    /// `id` is replaced, `id` leaves the key of an earlier route with another
    /// key and joins the key of `route`, whose slot is made with times `now`
    /// when it has none.
    pub fn add_route_at(&mut self, id: ID, route: Route, now: i64)
        requires
            old(self).wf(),
        ensures
            final(self).wf(),
            id_model::<ID>() ==> final(self)@ == after_add(old(self)@, id, route, now),
            final(self)@.times.contains_key(route.spec_route_key()),
            !old(self)@.times.contains_key(route.spec_route_key()) ==> final(self)@.times[route.spec_route_key()].last_read
                == now && final(self)@.times[route.spec_route_key()].last_write == now,
            old(self)@.times.contains_key(route.spec_route_key()) ==> times_kept(
                old(self)@.times,
                final(self)@.times,
                route.spec_route_key(),
            ),
            forall|k: RouteKey|
                k != route.spec_route_key() ==> #[trigger] times_kept(old(self)@.times, final(self)@.times, k),
    {
        let ghost v = self@;
        let key = route.route_key();
        let previous = self.routes.insert(clone_id(&id), route);
        match previous {
            Some(old_route) => {
                let old_key = old_route.route_key();
                if old_key != key {
                    self.take_id(&old_key, &id);
                }
            },
            None => {},
        }
        let ghost mid = self@.times;
        proof {
            assert(mid.contains_key(key) <==> v.times.contains_key(key));
            assert(times_kept(v.times, mid, key));
        }
        self.put_id(&key, &id, now);
        proof {
            assert forall|k: RouteKey| k != key implies #[trigger] times_kept(v.times, self@.times, k) by {
                assert(times_kept(v.times, mid, k));
                assert(times_kept(mid, self@.times, k));
            }
            if v.times.contains_key(key) {
                assert(times_kept(mid, self@.times, key));
            }
        }
        proof {
            if id_model::<ID>() {
                assert(self@ == after_add(v, id, route, now));
                lemma_add_consistent(v, id, route, now);
            }
        }
    }

    /// Gives `id` the route `route` (see `add_route_at`), with the current
    /// time for a new slot.
    pub fn add_route(&mut self, id: ID, route: Route)
        requires
            old(self).wf(),
        ensures
            final(self).wf(),
            id_model::<ID>() ==> exists|now: i64| final(self)@ == after_add(old(self)@, id, route, now),
            final(self)@.times.contains_key(route.spec_route_key()),
            old(self)@.times.contains_key(route.spec_route_key()) ==> times_kept(
                old(self)@.times,
                final(self)@.times,
                route.spec_route_key(),
            ),
            forall|k: RouteKey|
                k != route.spec_route_key() ==> #[trigger] times_kept(old(self)@.times, final(self)@.times, k),
    {
        let now = now_millis();
        self.add_route_at(id, route, now);
    }

    /// Removes the route of `id`; `id` leaves the key of that route, which
    /// goes when no peer is left behind it.
    pub fn remove_route(&mut self, id: &ID)
        requires
            old(self).wf(),
        ensures
            final(self).wf(),
            id_model::<ID>() ==> final(self)@ == after_remove(old(self)@, *id),
            forall|k: RouteKey| #[trigger] times_kept(old(self)@.times, final(self)@.times, k),
    {
        let ghost v = self@;
        let removed = self.routes.remove(id);
        match removed {
            Some(route) => {
                let key = route.route_key();
                self.take_id(&key, id);
            },
            None => {},
        }
        proof {
            if id_model::<ID>() {
                if !v.routes.contains_key(*id) {
                    assert(self.routes@ =~= v.routes);
                }
                assert(self@ == after_remove(v, *id));
                if v.routes.contains_key(*id) {
                    lemma_without_consistent(v, *id);
                }
            }
        }
    }

    /// Sets the metric and round-trip time of the route of `id`, if it has one.
    pub fn update_route(&mut self, id: &ID, metric: u8, rt: i64)
        requires
            old(self).wf(),
        ensures
            final(self).wf(),
            id_model::<ID>() ==> final(self)@ == after_update(old(self)@, *id, metric, rt),
            final(self)@.times == old(self)@.times,
    {
        let ghost v = self@;
        let current = match self.routes.get(id) {
            Some(r) => Some(*r),
            None => None,
        };
        match current {
            Some(r) => {
                let updated = Route { index: r.index, addr: r.addr, metric, rt };
                self.routes.insert(clone_id(id), updated);
            },
            None => {},
        }
        proof {
            if id_model::<ID>() {
                assert(self@ == after_update(v, *id, metric, rt));
                lemma_update_consistent(v, *id, metric, rt);
            }
        }
    }

    /// The route of `id`.
    pub fn route(&self, id: &ID) -> (r: Option<Route>)
        ensures
            id_model::<ID>() ==> r == (if self@.routes.contains_key(*id) {
                Some(self@.routes[*id])
            } else {
                None
            }),
    {
        match self.routes.get(id) {
            Some(r) => Some(*r),
            None => None,
        }
    }

    /// The first peer listed under `key`.
    pub fn route_to_id(&self, key: &RouteKey) -> (r: Option<ID>)
        requires
            self.wf(),
        ensures
            id_model::<ID>() ==> r == (if self@.times.contains_key(*key) {
                Some(self@.times[*key].ids[0])
            } else {
                None
            }),
            r is Some ==> self@.times.contains_key(*key),
            !self@.times.contains_key(*key) ==> r is None,
    {
        let (i, found) = self.position(key);
        proof {
            lemma_slots_map(self.slots@);
        }
        if found && self.slots[i].ids.len() > 0 {
            Some(clone_id(&self.slots[i].ids[0]))
        } else {
            None
        }
    }

    /// Records that data from `key` was received at `now`.
    pub fn record_read_at(&mut self, key: &RouteKey, now: i64)
        requires
            old(self).wf(),
        ensures
            final(self).wf(),
            final(self)@ == after_read(old(self)@, *key, now),
    {
        let ghost v = self@;
        let (i, found) = self.position(key);
        proof {
            lemma_slots_map(self.slots@);
        }
        if found {
            let ghost before = self.slots@;
            self.slots[i].last_read = now;
            proof {
                assert(self.slots@ == before.update(i as int, self.slots@[i as int]));
                lemma_slots_update(before, i as int, self.slots@[i as int]);
                assert(self@ == after_read(v, *key, now));
                if id_model::<ID>() {
                    lemma_times_consistent(v, *key, now);
                }
            }
        }
    }

    /// Records that data was sent to `key` at `now`.
    pub fn record_write_at(&mut self, key: &RouteKey, now: i64)
        requires
            old(self).wf(),
        ensures
            final(self).wf(),
            final(self)@ == after_write(old(self)@, *key, now),
    {
        let ghost v = self@;
        let (i, found) = self.position(key);
        proof {
            lemma_slots_map(self.slots@);
        }
        if found {
            let ghost before = self.slots@;
            self.slots[i].last_write = now;
            proof {
                assert(self.slots@ == before.update(i as int, self.slots@[i as int]));
                lemma_slots_update(before, i as int, self.slots@[i as int]);
                assert(self@ == after_write(v, *key, now));
                if id_model::<ID>() {
                    lemma_times_consistent(v, *key, now);
                }
            }
        }
    }

    /// Records that data from `key` was received now.
    pub fn record_read(&mut self, key: &RouteKey)
        requires
            old(self).wf(),
        ensures
            final(self).wf(),
            exists|now: i64| final(self)@ == after_read(old(self)@, *key, now),
    {
        let now = now_millis();
        self.record_read_at(key, now);
    }

    /// Records that data was sent to `key` now.
    pub fn record_write(&mut self, key: &RouteKey)
        requires
            old(self).wf(),
        ensures
            final(self).wf(),
            exists|now: i64| final(self)@ == after_write(old(self)@, *key, now),
    {
        let now = now_millis();
        self.record_write_at(key, now);
    }

    /// Every peer with its route, each peer once.
    pub fn route_table(&self) -> (r: Vec<(ID, Route)>)
        requires
            self.wf(),
        ensures
            id_model::<ID>() ==> {
                &&& forall|i: int| #![trigger r@[i]]
                    0 <= i < r@.len() ==> self@.routes.contains_key(r@[i].0) && self@.routes[r@[i].0] == r@[i].1
                &&& forall|id: ID| #[trigger]
                    self@.routes.contains_key(id) ==> exists|i: int| 0 <= i < r@.len() && r@[i].0 == id
                &&& forall|i: int, j: int| 0 <= i < j < r@.len() ==> r@[i].0 != r@[j].0
            },
    {
        let ghost s = self.slots@;
        proof {
            lemma_slots_map(s);
        }
        let mut out: Vec<(ID, Route)> = Vec::new();
        let mut a: usize = 0;
        while a < self.slots.len()
            invariant
                self.wf(),
                s == self.slots@,
                a <= s.len(),
                id_model::<ID>() ==> out@.len() == flat(s.take(a as int)).len(),
                id_model::<ID>() ==> forall|p: int| #![trigger out@[p]]
                    0 <= p < out@.len() ==> {
                        &&& out@[p].0 == flat(s.take(a as int))[p]
                        &&& self@.routes.contains_key(out@[p].0)
                        &&& self@.routes[out@[p].0] == out@[p].1
                    },
            decreases s.len() - a,
        {
            let ghost before = flat(s.take(a as int));
            let mut b: usize = 0;
            while b < self.slots[a].ids.len()
                invariant
                    self.wf(),
                    s == self.slots@,
                    a < s.len(),
                    b <= s[a as int].ids@.len(),
                    before == flat(s.take(a as int)),
                    id_model::<ID>() ==> out@.len() == before.len() + b,
                    id_model::<ID>() ==> forall|p: int| #![trigger out@[p]]
                        0 <= p < out@.len() ==> {
                            &&& out@[p].0 == (before + s[a as int].ids@.take(b as int))[p]
                            &&& self@.routes.contains_key(out@[p].0)
                            &&& self@.routes[out@[p].0] == out@[p].1
                        },
                decreases s[a as int].ids@.len() - b,
            {
                let id = &self.slots[a].ids[b];
                proof {
                    lemma_slots_map(s);
                    if id_model::<ID>() {
                        assert(self@.times.contains_key(s[a as int].key));
                        assert(self@.times[s[a as int].key].ids[b as int] == *id);
                        assert(self@.times[s[a as int].key].ids.contains(*id));
                    }
                }
                match self.routes.get(id) {
                    Some(r) => {
                        out.push((clone_id(id), *r));
                    },
                    None => {},
                }
                proof {
                    if id_model::<ID>() {
                        let t = before + s[a as int].ids@.take(b + 1);
                        assert(t == (before + s[a as int].ids@.take(b as int)).push(*id));
                        assert forall|p: int| 0 <= p < out@.len() - 1 implies #[trigger] t[p]
                            == (before + s[a as int].ids@.take(b as int))[p] by {}
                    }
                }
                b = b + 1;
            }
            proof {
                lemma_flat_step(s, a as int);
                assert(s[a as int].ids@.take(b as int) == s[a as int].ids@);
            }
            a = a + 1;
        }
        proof {
            assert(s.take(s.len() as int) == s);
            if id_model::<ID>() {
                let v = self@;
                assert forall|id: ID| #[trigger] v.routes.contains_key(id) implies exists|i: int|
                    0 <= i < out@.len() && out@[i].0 == id by {
                    let k = v.routes[id].spec_route_key();
                    let j = choose|j: int| 0 <= j < s.len() && (#[trigger] s[j]).key == k;
                    assert(v.times[s[j].key] == slot_view(s[j]));
                    lemma_flat_contains(s, id, j);
                    let p = choose|p: int| 0 <= p < flat(s).len() && flat(s)[p] == id;
                    assert(out@[p].0 == id);
                }
                assert forall|x: int, y: int, id: ID|
                    #![trigger s[x].ids@.contains(id), s[y].ids@.contains(id)]
                    0 <= x < y < s.len() && s[x].ids@.contains(id) implies !s[y].ids@.contains(id) by {
                    assert(v.times[s[x].key] == slot_view(s[x]));
                    assert(v.times[s[y].key] == slot_view(s[y]));
                    assert(v.times[s[x].key].ids.contains(id));
                    if s[y].ids@.contains(id) {
                        assert(v.times[s[y].key].ids.contains(id));
                        lemma_key_order(s[x].key, s[y].key, s[x].key);
                    }
                }
                assert forall|x: int| 0 <= x < s.len() implies (#[trigger] s[x]).ids@.no_duplicates() by {
                    assert(v.times.contains_key(s[x].key));
                    assert(v.times[s[x].key] == slot_view(s[x]));
                }
                lemma_flat_no_duplicates(s);
            }
        }
        out
    }

    /// A copy of the peers listed under the slot at `i`.
    fn ids_at(&self, i: usize) -> (r: Vec<ID>)
        requires
            i < self.slots@.len(),
        ensures
            id_model::<ID>() ==> r@ == self.slots@[i as int].ids@,
    {
        let ids = &self.slots[i].ids;
        let mut out: Vec<ID> = Vec::new();
        let mut j: usize = 0;
        while j < ids.len()
            invariant
                j <= ids@.len(),
                id_model::<ID>() ==> out@ == ids@.take(j as int),
            decreases ids@.len() - j,
        {
            out.push(clone_id(&ids[j]));
            proof {
                if id_model::<ID>() {
                    assert(ids@.take(j + 1) == ids@.take(j as int).push(ids@[j as int]));
                }
            }
            j = j + 1;
        }
        proof {
            assert(ids@.take(ids@.len() as int) == ids@);
        }
        out
    }

    /// Looks for an idle route key at time `now` (see `idle_scan_spec`).
    pub fn scan_idle_at(&self, read_idle: i64, write_idle: i64, now: i64) -> (r: IdleScan<ID>)
        requires
            self.wf(),
        ensures
            idle_scan_spec(self@, read_idle, write_idle, now, r),
    {
        let ghost s = self.slots@;
        proof {
            lemma_slots_map(s);
        }
        let mut earliest: i64 = i64::MAX;
        let mut i: usize = 0;
        while i < self.slots.len()
            invariant
                s == self.slots@,
                slots_sorted(s),
                i <= s.len(),
                forall|j: int|
                    0 <= j < i ==> idle_status_of(
                        read_idle,
                        write_idle,
                        now,
                        (#[trigger] s[j]).last_read,
                        s[j].last_write,
                    ) is None,
                forall|j: int|
                    0 <= j < i ==> {
                        &&& read_idle > 0 ==> earliest <= (#[trigger] s[j]).last_read
                        &&& write_idle > 0 ==> earliest <= s[j].last_write
                    },
                earliest == i64::MAX || exists|j: int|
                    0 <= j < i && ((read_idle > 0 && earliest == (#[trigger] s[j]).last_read) || (
                    write_idle > 0 && earliest == s[j].last_write)),
            decreases s.len() - i,
        {
            let slot = &self.slots[i];
            match idle_status(read_idle, write_idle, now, slot.last_read, slot.last_write) {
                Some(status) => {
                    let ids = self.ids_at(i);
                    proof {
                        let key = s[i as int].key;
                        assert(self@.times[key] == slot_view(s[i as int]));
                        assert forall|k: RouteKey| #[trigger]
                            self@.times.contains_key(k) && key_lt(k, key) implies idle_status_of(
                            read_idle,
                            write_idle,
                            now,
                            self@.times[k].last_read,
                            self@.times[k].last_write,
                        ) is None by {
                            let j = choose|j: int| 0 <= j < s.len() && (#[trigger] s[j]).key == k;
                            assert(self@.times[s[j].key] == slot_view(s[j]));
                            if j >= i {
                                if j > i {
                                    assert(key_lt(s[i as int].key, s[j].key));
                                }
                                lemma_key_order(k, key, k);
                            }
                        }
                    }
                    return IdleScan::Idle(status, ids, slot.key);
                },
                None => {
                    if read_idle > 0 && slot.last_read < earliest {
                        earliest = slot.last_read;
                    }
                    if write_idle > 0 && slot.last_write < earliest {
                        earliest = slot.last_write;
                    }
                },
            }
            i = i + 1;
        }
        proof {
            assert forall|k: RouteKey| #[trigger] self@.times.contains_key(k) implies {
                &&& idle_status_of(
                    read_idle,
                    write_idle,
                    now,
                    self@.times[k].last_read,
                    self@.times[k].last_write,
                ) is None
                &&& read_idle > 0 ==> earliest <= self@.times[k].last_read
                &&& write_idle > 0 ==> earliest <= self@.times[k].last_write
            } by {
                let j = choose|j: int| 0 <= j < s.len() && (#[trigger] s[j]).key == k;
                assert(self@.times[s[j].key] == slot_view(s[j]));
            }
            if earliest != i64::MAX {
                let j = choose|j: int|
                    0 <= j < s.len() && ((read_idle > 0 && earliest == (#[trigger] s[j]).last_read) || (
                    write_idle > 0 && earliest == s[j].last_write));
                assert(self@.times[s[j].key] == slot_view(s[j]));
                assert(self@.times.contains_key(s[j].key));
            }
        }
        IdleScan::Active(earliest)
    }

    /// One step of the idle watcher at the current time: report the first
    /// idle route key, or else the wait (see `wait_step`), reading the clock
    /// again for it.
    pub fn idle_step(&self, read_idle: i64, write_idle: i64) -> (r: IdleStep<ID>)
        requires
            self.wf(),
        ensures
            exists|now: i64, scan: IdleScan<ID>| {
                &&& #[trigger] idle_scan_spec(self@, read_idle, write_idle, now, scan)
                &&& match scan {
                    IdleScan::Idle(status, ids, key) => r == IdleStep::Report(status, ids, key),
                    IdleScan::Active(earliest) => exists|later: i64|
                        r == #[trigger] wait_step::<ID>(
                            no_route_keys(self@),
                            later,
                            earliest,
                        ),
                }
            },
    {
        let now = now_millis();
        let scan = self.scan_idle_at(read_idle, write_idle, now);
        match scan {
            IdleScan::Idle(status, ids, key) => IdleStep::Report(status, ids, key),
            IdleScan::Active(earliest) => {
                let empty = self.is_empty();
                let later = now_millis();
                wait_after_scan(empty, later, earliest)
            }
        }
    }

    /// Whether no route key is in use.
    pub fn is_empty(&self) -> (r: bool)
        requires
            self.wf(),
        ensures
            r == no_route_keys(self@),
    {
        proof {
            lemma_slots_map(self.slots@);
            if self.slots@.len() > 0 {
                assert(self@.times.contains_key(self.slots@[0].key));
            }
        }
        self.slots.len() == 0
    }
}

} // verus!
