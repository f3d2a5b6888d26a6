//! Derived statistics: per-category and per-node rollups of the event log.
//!
//! Everything here is recomputed from scratch out of a point-in-time event
//! sequence; no aggregation state is kept between calls. Count maps are
//! association vectors with unique keys, "most recent" always means append
//! order, never timestamp-value comparison.

use vstd::prelude::*;

use crate::event::Event;
use crate::order::{lemma_str_lt_total, lemma_str_lt_trans, str_le, str_lt, str_lt_exec};

verus! {

/// Rollup for one category: counts by event type and severity, and the last
/// ten events of the category latest-first.
pub struct CategoryStats {
    pub category: String,
    pub total_count: usize,
    pub event_types: Vec<(String, usize)>,
    pub severity_counts: Vec<(String, usize)>,
    pub recent_events: Vec<Event>,
}

/// Rollup for one node, identified by the `(host, host_ipv4)` pair.
pub struct NodeStats {
    pub host: String,
    pub host_ipv4: String,
    pub total_events: usize,
    pub last_event_time: Option<String>,
    pub categories: Vec<(String, usize)>,
    pub severity_counts: Vec<(String, usize)>,
}

/// The full dashboard rollup over a snapshot of the store.
pub struct DashboardStats {
    pub total_events: usize,
    pub categories: Vec<CategoryStats>,
    pub last_updated: String,
    pub nodes: Vec<NodeStats>,
}

/// Which string field of an event a count map is keyed by.
pub enum StatKey {
    Category,
    EventType,
    Severity,
}

/// The key field of `e` selected by `f`.
pub open spec fn key_of(f: StatKey, e: Event) -> Seq<char> {
    match f {
        StatKey::Category => e.category@,
        StatKey::EventType => e.event_type@,
        StatKey::Severity => e.severity@,
    }
}

/// The subsequence of `evs` in category `c`, in append order.
pub open spec fn events_in_category(evs: Seq<Event>, c: Seq<char>) -> Seq<Event>
    decreases evs.len(),
{
    if evs.len() == 0 {
        Seq::empty()
    } else {
        let rest = events_in_category(evs.drop_last(), c);
        if evs.last().category@ == c {
            rest.push(evs.last())
        } else {
            rest
        }
    }
}

/// The subsequence of `evs` belonging to the node `(h, ip)`, in append order.
pub open spec fn events_of_node(evs: Seq<Event>, h: Seq<char>, ip: Seq<char>) -> Seq<Event>
    decreases evs.len(),
{
    if evs.len() == 0 {
        Seq::empty()
    } else {
        let rest = events_of_node(evs.drop_last(), h, ip);
        if evs.last().host@ == h && evs.last().host_ipv4@ == ip {
            rest.push(evs.last())
        } else {
            rest
        }
    }
}

/// How many events of `evs` have key field `f` equal to `k`.
pub open spec fn count_key(evs: Seq<Event>, f: StatKey, k: Seq<char>) -> nat
    decreases evs.len(),
{
    if evs.len() == 0 {
        0
    } else {
        count_key(evs.drop_last(), f, k) + if key_of(f, evs.last()) == k {
            1nat
        } else {
            0nat
        }
    }
}

/// Whether the association vector `ps` has an entry for key `k`.
pub open spec fn has_key(ps: Seq<(String, usize)>, k: Seq<char>) -> bool {
    exists|i: int| 0 <= i < ps.len() && #[trigger] ps[i].0@ == k
}

/// `ps` is a correct count map of `evs` keyed by the field `f`: keys are
/// unique, every entry counts exactly the events carrying its key, every
/// event's key has an entry, and every entry's key occurs in `evs`.
pub open spec fn counts_ok(evs: Seq<Event>, f: StatKey, ps: Seq<(String, usize)>) -> bool {
    &&& forall|i: int, j: int|
        #![trigger ps[i].0, ps[j].0]
        0 <= i < j < ps.len() ==> ps[i].0@ != ps[j].0@
    &&& forall|i: int| 0 <= i < ps.len() ==> #[trigger] ps[i].1 == count_key(evs, f, ps[i].0@)
    &&& forall|t: int| 0 <= t < evs.len() ==> has_key(ps, key_of(f, #[trigger] evs[t]))
    &&& forall|i: int|
        0 <= i < ps.len() ==> exists|t: int|
            0 <= t < evs.len() && key_of(f, evs[t]) == #[trigger] ps[i].0@
}

/// A key occurs at most as often as there are events.
proof fn lemma_count_key_le_len(evs: Seq<Event>, f: StatKey, k: Seq<char>)
    ensures
        count_key(evs, f, k) <= evs.len(),
    decreases evs.len(),
{
    if evs.len() > 0 {
        lemma_count_key_le_len(evs.drop_last(), f, k);
    }
}

/// A key that no event carries has count zero.
proof fn lemma_count_key_zero(evs: Seq<Event>, f: StatKey, k: Seq<char>)
    requires
        forall|t: int| 0 <= t < evs.len() ==> key_of(f, #[trigger] evs[t]) != k,
    ensures
        count_key(evs, f, k) == 0,
    decreases evs.len(),
{
    if evs.len() > 0 {
        assert(forall|t: int|
            0 <= t < evs.drop_last().len() ==> #[trigger] evs.drop_last()[t] == evs[t]);
        lemma_count_key_zero(evs.drop_last(), f, k);
    }
}

/// The reference to the key field of `e` selected by `f`.
fn key_ref<'a>(f: &StatKey, e: &'a Event) -> (r: &'a String)
    ensures
        r@ == key_of(*f, *e),
{
    match f {
        StatKey::Category => &e.category,
        StatKey::EventType => &e.event_type,
        StatKey::Severity => &e.severity,
    }
}

/// Adds one occurrence of `key` to the association vector: bumps the
/// matching entry if there is one, else appends a fresh entry with count 1.
#[verifier::loop_isolation(false)]
fn bump(ps: &mut Vec<(String, usize)>, key: &String)
    requires
        forall|i: int| 0 <= i < old(ps)@.len() ==> (#[trigger] old(ps)@[i]).1 < usize::MAX,
        forall|i: int, j: int|
            #![trigger old(ps)@[i].0, old(ps)@[j].0]
            0 <= i < j < old(ps)@.len() ==> old(ps)@[i].0@ != old(ps)@[j].0@,
    ensures
        has_key(old(ps)@, key@) ==> {
            &&& final(ps)@.len() == old(ps)@.len()
            &&& forall|i: int|
                0 <= i < old(ps)@.len() ==> #[trigger] final(ps)@[i].0 == old(ps)@[i].0
            &&& forall|i: int|
                0 <= i < old(ps)@.len() && old(ps)@[i].0@ == key@
                    ==> #[trigger] final(ps)@[i].1 == old(ps)@[i].1 + 1
            &&& forall|i: int|
                0 <= i < old(ps)@.len() && old(ps)@[i].0@ != key@
                    ==> #[trigger] final(ps)@[i].1 == old(ps)@[i].1
        },
        !has_key(old(ps)@, key@) ==> {
            &&& final(ps)@.len() == old(ps)@.len() + 1
            &&& forall|i: int|
                0 <= i < old(ps)@.len() ==> #[trigger] final(ps)@[i] == old(ps)@[i]
            &&& final(ps)@.last().0@ == key@
            &&& final(ps)@.last().1 == 1
        },
{
    let mut i: usize = 0;
    while i < ps.len()
        invariant
            i <= ps@.len(),
            ps@ == old(ps)@,
            forall|t: int| 0 <= t < i ==> #[trigger] ps@[t].0@ != key@,
        decreases ps@.len() - i,
    {
        if ps[i].0 == *key {
            proof {
                assert(old(ps)@[i as int].0@ == key@);
                assert(has_key(old(ps)@, key@));
                assert(old(ps)@[i as int].1 < usize::MAX);
            }
            let entry = ps.remove(i);
            proof {
                assert(entry == old(ps)@[i as int]);
            }
            ps.insert(i, (entry.0, entry.1 + 1));
            proof {
                let bumped = (old(ps)@[i as int].0, (old(ps)@[i as int].1 + 1) as usize);
                assert(ps@ =~= old(ps)@.update(i as int, bumped));
            }
            return ;
        }
        i = i + 1;
    }
    ps.push((key.clone(), 1));
}

/// The count map of `evs` keyed by the field `f`.
#[verifier::loop_isolation(false)]
fn count_by(evs: &Vec<Event>, f: StatKey) -> (r: Vec<(String, usize)>)
    ensures
        counts_ok(evs@, f, r@),
{
    let mut ps: Vec<(String, usize)> = Vec::new();
    let mut t: usize = 0;
    proof {
        assert(evs@.take(0) =~= Seq::<Event>::empty());
    }
    while t < evs.len()
        invariant
            t <= evs@.len(),
            counts_ok(evs@.take(t as int), f, ps@),
        decreases evs@.len() - t,
    {
        let ghost pre = evs@.take(t as int);
        let ghost cur = evs@.take(t as int + 1);
        proof {
            assert(cur.drop_last() =~= pre);
            assert(cur.last() == evs@[t as int]);
            assert forall|i: int| 0 <= i < ps@.len() implies (#[trigger] ps@[i]).1 < usize::MAX by {
                lemma_count_key_le_len(pre, f, ps@[i].0@);
            }
        }
        let ghost old_ps = ps@;
        let key = key_ref(&f, &evs[t]);
        bump(&mut ps, key);
        proof {
            let k = key_of(f, evs@[t as int]);
            if !has_key(old_ps, k) {
                // the fresh entry starts at 1; its key was absent before
                assert forall|u: int| 0 <= u < pre.len() implies key_of(f, #[trigger] pre[u]) != k by {
                    assert(has_key(old_ps, key_of(f, pre[u])));
                }
                lemma_count_key_zero(pre, f, k);
            }
            assert forall|i: int| 0 <= i < ps@.len() implies #[trigger] ps@[i].1 == count_key(
                cur,
                f,
                ps@[i].0@,
            ) by {
                assert(count_key(cur, f, ps@[i].0@) == count_key(pre, f, ps@[i].0@) + (
                if key_of(f, cur.last()) == ps@[i].0@ {
                    1nat
                } else {
                    0nat
                }));
                if i < old_ps.len() {
                    assert(ps@[i].0 == old_ps[i].0);
                    assert(old_ps[i].1 == count_key(pre, f, old_ps[i].0@));
                }
            }
            assert forall|u: int| 0 <= u < cur.len() implies has_key(
                ps@,
                key_of(f, #[trigger] cur[u]),
            ) by {
                if u < pre.len() {
                    assert(cur[u] == pre[u]);
                    let w = choose|w: int|
                        0 <= w < old_ps.len() && #[trigger] old_ps[w].0@ == key_of(f, pre[u]);
                    assert(ps@[w].0@ == key_of(f, pre[u]));
                } else {
                    if has_key(old_ps, k) {
                        let w = choose|w: int|
                            0 <= w < old_ps.len() && #[trigger] old_ps[w].0@ == k;
                        assert(ps@[w].0@ == k);
                    } else {
                        assert(ps@.last().0@ == k);
                        assert(ps@[ps@.len() - 1].0@ == k);
                    }
                }
            }
            assert forall|i: int| 0 <= i < ps@.len() implies exists|u: int|
                0 <= u < cur.len() && key_of(f, cur[u]) == #[trigger] ps@[i].0@ by {
                if i < old_ps.len() {
                    let w = choose|w: int|
                        0 <= w < pre.len() && key_of(f, pre[w]) == old_ps[i].0@;
                    assert(cur[w] == pre[w]);
                    assert(key_of(f, cur[w]) == ps@[i].0@);
                } else {
                    assert(key_of(f, cur[cur.len() - 1]) == ps@[i].0@);
                }
            }
        }
        t = t + 1;
    }
    proof {
        assert(evs@.take(evs@.len() as int) =~= evs@);
    }
    ps
}

/// The per-category rollup `c` is correct for the snapshot `evs`: its counts
/// are over exactly the events of its category, and `recent_events` is the
/// last `min(10, total)` of them in reverse append order.
pub open spec fn cat_ok(evs: Seq<Event>, c: CategoryStats) -> bool {
    let g = events_in_category(evs, c.category@);
    &&& c.total_count == g.len()
    &&& counts_ok(g, StatKey::EventType, c.event_types@)
    &&& counts_ok(g, StatKey::Severity, c.severity_counts@)
    &&& c.recent_events@.len() == (if g.len() < 10 {
        g.len()
    } else {
        10nat
    })
    &&& forall|i: int|
        0 <= i < c.recent_events@.len() ==> #[trigger] c.recent_events@[i] == g[g.len() - 1 - i]
}

/// The per-node rollup `n` is correct for the snapshot `evs`: the node has at
/// least one event, and `last_event_time` is the `time` field of its
/// last-appended event (positional, never a timestamp-value comparison).
pub open spec fn node_ok(evs: Seq<Event>, n: NodeStats) -> bool {
    let g = events_of_node(evs, n.host@, n.host_ipv4@);
    &&& g.len() > 0
    &&& n.total_events == g.len()
    &&& n.last_event_time matches Some(t) && t@ == g.last().time@
    &&& counts_ok(g, StatKey::Category, n.categories@)
    &&& counts_ok(g, StatKey::Severity, n.severity_counts@)
}

/// The events of `evs` in category `c`, as a vector.
fn category_group(evs: &Vec<Event>, c: &String) -> (r: Vec<Event>)
    ensures
        r@ == events_in_category(evs@, c@),
{
    let mut g: Vec<Event> = Vec::new();
    let mut i: usize = 0;
    proof {
        assert(evs@.take(0) =~= Seq::<Event>::empty());
    }
    while i < evs.len()
        invariant
            i <= evs@.len(),
            g@ == events_in_category(evs@.take(i as int), c@),
        decreases evs@.len() - i,
    {
        proof {
            assert(evs@.take(i as int + 1).drop_last() =~= evs@.take(i as int));
            assert(evs@.take(i as int + 1).last() == evs@[i as int]);
        }
        if evs[i].category == *c {
            g.push(evs[i].clone());
        }
        i = i + 1;
    }
    proof {
        assert(evs@.take(evs@.len() as int) =~= evs@);
    }
    g
}

/// The events of `evs` belonging to the node `(h, ip)`, as a vector.
fn node_group(evs: &Vec<Event>, h: &String, ip: &String) -> (r: Vec<Event>)
    ensures
        r@ == events_of_node(evs@, h@, ip@),
{
    let mut g: Vec<Event> = Vec::new();
    let mut i: usize = 0;
    proof {
        assert(evs@.take(0) =~= Seq::<Event>::empty());
    }
    while i < evs.len()
        invariant
            i <= evs@.len(),
            g@ == events_of_node(evs@.take(i as int), h@, ip@),
        decreases evs@.len() - i,
    {
        proof {
            assert(evs@.take(i as int + 1).drop_last() =~= evs@.take(i as int));
            assert(evs@.take(i as int + 1).last() == evs@[i as int]);
        }
        if evs[i].host == *h && evs[i].host_ipv4 == *ip {
            g.push(evs[i].clone());
        }
        i = i + 1;
    }
    proof {
        assert(evs@.take(evs@.len() as int) =~= evs@);
    }
    g
}

/// A node that some event belongs to has a non-empty group.
proof fn lemma_node_group_nonempty(evs: Seq<Event>, h: Seq<char>, ip: Seq<char>, t: int)
    requires
        0 <= t < evs.len(),
        evs[t].host@ == h,
        evs[t].host_ipv4@ == ip,
    ensures
        events_of_node(evs, h, ip).len() > 0,
    decreases evs.len(),
{
    if t < evs.len() - 1 {
        assert(evs.drop_last()[t] == evs[t]);
        lemma_node_group_nonempty(evs.drop_last(), h, ip, t);
    }
}

/// Whether some entry of `v` views to the same string as `s`.
fn contains_str(v: &Vec<String>, s: &String) -> (r: bool)
    ensures
        r == has_name(v@, s@),
{
    let mut i: usize = 0;
    while i < v.len()
        invariant
            i <= v@.len(),
            forall|t: int| 0 <= t < i ==> #[trigger] v@[t]@ != s@,
        decreases v@.len() - i,
    {
        if v[i] == *s {
            return true;
        }
        i = i + 1;
    }
    false
}

/// Whether some entry of `v` equals the pair `(h, ip)`.
fn contains_pair(v: &Vec<(String, String)>, h: &String, ip: &String) -> (r: bool)
    ensures
        r == has_node_key(v@, h@, ip@),
{
    let mut i: usize = 0;
    while i < v.len()
        invariant
            i <= v@.len(),
            forall|t: int| 0 <= t < i ==> !(#[trigger] v@[t].0@ == h@ && v@[t].1@ == ip@),
        decreases v@.len() - i,
    {
        if v[i].0 == *h && v[i].1 == *ip {
            return true;
        }
        i = i + 1;
    }
    false
}

/// Whether the category `c` occurs in `evs`.
pub open spec fn cat_occurs(evs: Seq<Event>, c: Seq<char>) -> bool {
    exists|t: int| 0 <= t < evs.len() && (#[trigger] evs[t]).category@ == c
}

/// Whether some entry of `ns` views to the string `c`.
pub open spec fn has_name(ns: Seq<String>, c: Seq<char>) -> bool {
    exists|i: int| 0 <= i < ns.len() && #[trigger] ns[i]@ == c
}

/// The distinct category names of `evs`, in strictly ascending order.
#[verifier::loop_isolation(false)]
fn sorted_category_names(evs: &Vec<Event>) -> (r: Vec<String>)
    ensures
        forall|i: int, j: int|
            #![trigger r@[i], r@[j]]
            0 <= i < j < r@.len() ==> str_lt(r@[i]@, r@[j]@),
        forall|t: int| 0 <= t < evs@.len() ==> has_name(r@, (#[trigger] evs@[t]).category@),
        forall|i: int| 0 <= i < r@.len() ==> cat_occurs(evs@, (#[trigger] r@[i])@),
{
    let mut names: Vec<String> = Vec::new();
    let mut t: usize = 0;
    while t < evs.len()
        invariant
            t <= evs@.len(),
            forall|i: int, j: int|
                #![trigger names@[i], names@[j]]
                0 <= i < j < names@.len() ==> str_lt(names@[i]@, names@[j]@),
            forall|u: int| 0 <= u < t ==> has_name(names@, (#[trigger] evs@[u]).category@),
            forall|i: int| 0 <= i < names@.len() ==> cat_occurs(evs@, (#[trigger] names@[i])@),
        decreases evs@.len() - t,
    {
        let ghost pre = names@;
        if !contains_str(&names, &evs[t].category) {
            let ghost gx = evs@[t as int].category@;
            let mut idx: usize = 0;
            while idx < names.len() && str_lt_exec(names[idx].as_str(), evs[t].category.as_str())
                invariant
                    idx <= names@.len(),
                    names@ == pre,
                    forall|k: int| 0 <= k < idx ==> str_lt((#[trigger] names@[k])@, gx),
                decreases names@.len() - idx,
            {
                idx = idx + 1;
            }
            proof {
                if idx < pre.len() {
                    lemma_str_lt_total(pre[idx as int]@, gx);
                    assert(pre[idx as int]@ != gx);
                    assert(str_lt(gx, pre[idx as int]@));
                }
            }
            names.insert(idx, evs[t].category.clone());
            proof {
                assert(names@ == pre.insert(idx as int, names@[idx as int]));
                assert(names@[idx as int]@ == gx);
                assert forall|k: int| 0 <= k < names@.len() && k != idx implies #[trigger] names@[k]
                    == (if k < idx {
                    pre[k]
                } else {
                    pre[k - 1]
                }) by {}
                assert forall|i: int, j: int|
                    #![trigger names@[i], names@[j]]
                    0 <= i < j < names@.len() implies str_lt(names@[i]@, names@[j]@) by {
                    if i < idx && j == idx {
                        assert(str_lt(pre[i]@, gx));
                    } else if i == idx && j > idx {
                        assert(str_lt(gx, pre[idx as int]@));
                        if j - 1 > idx {
                            lemma_str_lt_trans(gx, pre[idx as int]@, pre[j - 1]@);
                        }
                    }
                }
                assert forall|u: int| 0 <= u < t + 1 implies has_name(
                    names@,
                    (#[trigger] evs@[u]).category@,
                ) by {
                    if u < t {
                        let i = choose|i: int|
                            0 <= i < pre.len() && #[trigger] pre[i]@ == evs@[u].category@;
                        if i < idx {
                            assert(names@[i]@ == evs@[u].category@);
                        } else {
                            assert(names@[i + 1]@ == evs@[u].category@);
                        }
                    } else {
                        assert(names@[idx as int]@ == evs@[u].category@);
                    }
                }
                assert forall|i: int| 0 <= i < names@.len() implies cat_occurs(
                    evs@,
                    (#[trigger] names@[i])@,
                ) by {
                    if i != idx {
                        if i < idx {
                            assert(names@[i] == pre[i]);
                        } else {
                            assert(names@[i] == pre[i - 1]);
                        }
                    } else {
                        assert((#[trigger] evs@[t as int]).category@ == names@[idx as int]@);
                    }
                }
            }
        }
        t = t + 1;
    }
    names
}

/// Whether the node `(h, ip)` occurs in `evs`.
pub open spec fn node_occurs(evs: Seq<Event>, h: Seq<char>, ip: Seq<char>) -> bool {
    exists|t: int|
        0 <= t < evs.len() && (#[trigger] evs[t]).host@ == h && evs[t].host_ipv4@ == ip
}

/// Whether some entry of `ks` is the pair `(h, ip)`.
pub open spec fn has_node_key(ks: Seq<(String, String)>, h: Seq<char>, ip: Seq<char>) -> bool {
    exists|i: int| 0 <= i < ks.len() && (#[trigger] ks[i]).0@ == h && ks[i].1@ == ip
}

/// The distinct `(host, host_ipv4)` pairs of `evs`, in first-appearance order.
#[verifier::loop_isolation(false)]
fn collect_node_keys(evs: &Vec<Event>) -> (r: Vec<(String, String)>)
    ensures
        forall|i: int, j: int|
            #![trigger r@[i], r@[j]]
            0 <= i < j < r@.len() ==> !(r@[i].0@ == r@[j].0@ && r@[i].1@ == r@[j].1@),
        forall|t: int|
            0 <= t < evs@.len() ==> has_node_key(
                r@,
                (#[trigger] evs@[t]).host@,
                evs@[t].host_ipv4@,
            ),
        forall|i: int|
            0 <= i < r@.len() ==> node_occurs(evs@, (#[trigger] r@[i]).0@, r@[i].1@),
{
    let mut keys: Vec<(String, String)> = Vec::new();
    let mut t: usize = 0;
    while t < evs.len()
        invariant
            t <= evs@.len(),
            forall|i: int, j: int|
                #![trigger keys@[i], keys@[j]]
                0 <= i < j < keys@.len() ==> !(keys@[i].0@ == keys@[j].0@ && keys@[i].1@
                    == keys@[j].1@),
            forall|u: int|
                0 <= u < t ==> has_node_key(
                    keys@,
                    (#[trigger] evs@[u]).host@,
                    evs@[u].host_ipv4@,
                ),
            forall|i: int|
                0 <= i < keys@.len() ==> node_occurs(evs@, (#[trigger] keys@[i]).0@, keys@[i].1@),
        decreases evs@.len() - t,
    {
        let ghost pre = keys@;
        if !contains_pair(&keys, &evs[t].host, &evs[t].host_ipv4) {
            keys.push((evs[t].host.clone(), evs[t].host_ipv4.clone()));
            proof {
                assert((keys@[pre.len() as int]).0@ == evs@[t as int].host@);
                assert forall|u: int| 0 <= u < t + 1 implies has_node_key(
                    keys@,
                    (#[trigger] evs@[u]).host@,
                    evs@[u].host_ipv4@,
                ) by {
                    if u < t {
                        let i = choose|i: int|
                            0 <= i < pre.len() && (#[trigger] pre[i]).0@ == evs@[u].host@
                                && pre[i].1@ == evs@[u].host_ipv4@;
                        assert((keys@[i]).0@ == evs@[u].host@ && keys@[i].1@
                            == evs@[u].host_ipv4@);
                    }
                }
            }
        }
        t = t + 1;
    }
    keys
}

/// The last `min(10, len)` events of the group, latest-first.
fn recent_of_group(g: &Vec<Event>) -> (r: Vec<Event>)
    ensures
        r@.len() == (if g@.len() < 10 {
            g@.len()
        } else {
            10nat
        }),
        forall|i: int| 0 <= i < r@.len() ==> #[trigger] r@[i] == g@[g@.len() - 1 - i],
{
    let mut r: Vec<Event> = Vec::new();
    let mut j: usize = 0;
    while j < 10 && j < g.len()
        invariant
            j <= g@.len(),
            j <= 10,
            j < 10 || r@.len() == 10,
            r@.len() == j,
            forall|i: int| 0 <= i < r@.len() ==> #[trigger] r@[i] == g@[g@.len() - 1 - i],
        decreases g@.len() - j,
    {
        r.push(g[g.len() - 1 - j].clone());
        j = j + 1;
    }
    r
}

/// The full rollup for one category of the snapshot.
fn build_category(evs: &Vec<Event>, name: &String) -> (r: CategoryStats)
    ensures
        cat_ok(evs@, r),
        r.category@ == name@,
{
    let g = category_group(evs, name);
    let event_types = count_by(&g, StatKey::EventType);
    let severity_counts = count_by(&g, StatKey::Severity);
    let recent_events = recent_of_group(&g);
    let total_count = g.len();
    CategoryStats { category: name.clone(), total_count, event_types, severity_counts, recent_events }
}

/// The full rollup for one node of the snapshot. The node must own at least
/// one event.
fn build_node(evs: &Vec<Event>, h: &String, ip: &String) -> (r: NodeStats)
    requires
        node_occurs(evs@, h@, ip@),
    ensures
        node_ok(evs@, r),
        r.host@ == h@,
        r.host_ipv4@ == ip@,
{
    proof {
        let t = choose|t: int|
            0 <= t < evs@.len() && (#[trigger] evs@[t]).host@ == h@ && evs@[t].host_ipv4@ == ip@;
        lemma_node_group_nonempty(evs@, h@, ip@, t);
    }
    let g = node_group(evs, h, ip);
    let categories = count_by(&g, StatKey::Category);
    let severity_counts = count_by(&g, StatKey::Severity);
    let last_event_time = Some(g[g.len() - 1].time.clone());
    let total_events = g.len();
    NodeStats {
        host: h.clone(),
        host_ipv4: ip.clone(),
        total_events,
        last_event_time,
        categories,
        severity_counts,
    }
}

/// Dashboard order on node summary triples `(host, host_ipv4, total)`:
/// more events first, ties broken by ascending host.
pub open spec fn triple_le(a: (String, String, usize), b: (String, String, usize)) -> bool {
    a.2 > b.2 || (a.2 == b.2 && str_le(a.0@, b.0@))
}

proof fn lemma_triple_le_trans(
    a: (String, String, usize),
    b: (String, String, usize),
    c: (String, String, usize),
)
    requires
        triple_le(a, b),
        triple_le(b, c),
    ensures
        triple_le(a, c),
{
    if a.2 == b.2 && b.2 == c.2 {
        crate::order::lemma_str_le_trans(a.0@, b.0@, c.0@);
    }
}

/// Whether some triple of `ks` carries the node pair `(h, ip)`.
pub open spec fn has_triple(ks: Seq<(String, String, usize)>, h: Seq<char>, ip: Seq<char>) -> bool {
    exists|i: int| 0 <= i < ks.len() && (#[trigger] ks[i]).0@ == h && ks[i].1@ == ip
}

/// Whether `a` must come strictly before a node with total `total` and host
/// `h` in dashboard order.
fn triple_before(a: &(String, String, usize), total: usize, h: &String) -> (r: bool)
    ensures
        r == (a.2 > total || (a.2 == total && str_lt(a.0@, h@))),
{
    a.2 > total || (a.2 == total && str_lt_exec(a.0.as_str(), h.as_str()))
}

/// Whether the pair of the triple `tr` equals one of the first `t` of `ks`.
pub open spec fn pair_in_prefix(tr: (String, String, usize), ks: Seq<(String, String)>, t: int) -> bool {
    exists|u: int| 0 <= u < t && (#[trigger] ks[u]).0@ == tr.0@ && ks[u].1@ == tr.1@
}

/// One summary triple `(host, host_ipv4, total)` per node of `evs`, in
/// dashboard order: total descending, host ascending on ties.
#[verifier::loop_isolation(false)]
fn sorted_node_triples(evs: &Vec<Event>) -> (r: Vec<(String, String, usize)>)
    ensures
        forall|i: int|
            0 <= i < r@.len() ==> (#[trigger] r@[i]).2 == events_of_node(
                evs@,
                r@[i].0@,
                r@[i].1@,
            ).len(),
        forall|i: int| 0 <= i < r@.len() ==> node_occurs(evs@, (#[trigger] r@[i]).0@, r@[i].1@),
        forall|i: int, j: int|
            #![trigger r@[i], r@[j]]
            0 <= i < j < r@.len() ==> triple_le(r@[i], r@[j]),
        forall|i: int, j: int|
            #![trigger r@[i], r@[j]]
            0 <= i < j < r@.len() ==> !(r@[i].0@ == r@[j].0@ && r@[i].1@ == r@[j].1@),
        forall|t: int|
            0 <= t < evs@.len() ==> has_triple(r@, (#[trigger] evs@[t]).host@, evs@[t].host_ipv4@),
{
    let keys = collect_node_keys(evs);
    let mut out: Vec<(String, String, usize)> = Vec::new();
    let mut t: usize = 0;
    while t < keys.len()
        invariant
            t <= keys@.len(),
            forall|i: int|
                0 <= i < out@.len() ==> (#[trigger] out@[i]).2 == events_of_node(
                    evs@,
                    out@[i].0@,
                    out@[i].1@,
                ).len(),
            forall|i: int|
                0 <= i < out@.len() ==> node_occurs(evs@, (#[trigger] out@[i]).0@, out@[i].1@),
            forall|i: int, j: int|
                #![trigger out@[i], out@[j]]
                0 <= i < j < out@.len() ==> triple_le(out@[i], out@[j]),
            forall|i: int| 0 <= i < out@.len() ==> pair_in_prefix(#[trigger] out@[i], keys@, t as int),
            forall|i: int, j: int|
                #![trigger out@[i], out@[j]]
                0 <= i < j < out@.len() ==> !(out@[i].0@ == out@[j].0@ && out@[i].1@
                    == out@[j].1@),
            forall|u: int| 0 <= u < t ==> has_triple(out@, (#[trigger] keys@[u]).0@, keys@[u].1@),
        decreases keys@.len() - t,
    {
        let h = keys[t].0.clone();
        let ip = keys[t].1.clone();
        let g = node_group(evs, &h, &ip);
        let total = g.len();
        let ghost gh = h@;
        let ghost gip = ip@;
        let ghost pre = out@;
        let mut idx: usize = 0;
        while idx < out.len() && triple_before(&out[idx], total, &h)
            invariant
                idx <= out@.len(),
                out@ == pre,
                forall|k: int|
                    0 <= k < idx ==> ((#[trigger] out@[k]).2 > total || (out@[k].2 == total
                        && str_lt(out@[k].0@, gh))),
            decreases out@.len() - idx,
        {
            idx = idx + 1;
        }
        proof {
            if idx < pre.len() {
                lemma_str_lt_total(pre[idx as int].0@, gh);
                assert(triple_le((h, ip, total), pre[idx as int]));
            }
        }
        out.insert(idx, (h, ip, total));
        proof {
            let gx = out@[idx as int];
            assert(gx.0@ == gh && gx.1@ == gip && gx.2 == total);
            assert forall|k: int| 0 <= k < out@.len() && k != idx implies #[trigger] out@[k] == (
            if k < idx {
                pre[k]
            } else {
                pre[k - 1]
            }) by {}
            assert forall|i: int, j: int|
                #![trigger out@[i], out@[j]]
                0 <= i < j < out@.len() implies triple_le(out@[i], out@[j]) by {
                if i < idx && j == idx {
                    assert(triple_le(pre[i], gx));
                } else if i == idx && j > idx {
                    assert(triple_le(gx, pre[idx as int]));
                    if j - 1 > idx {
                        lemma_triple_le_trans(gx, pre[idx as int], pre[j - 1]);
                    }
                }
            }
            assert forall|i: int| 0 <= i < out@.len() implies pair_in_prefix(
                #[trigger] out@[i],
                keys@,
                t as int + 1,
            ) by {
                if i != idx {
                    let oi = if i < idx {
                        i
                    } else {
                        i - 1
                    };
                    assert(out@[i] == pre[oi]);
                    assert(pair_in_prefix(pre[oi], keys@, t as int));
                    let u = choose|u: int|
                        0 <= u < t && (#[trigger] keys@[u]).0@ == pre[oi].0@ && keys@[u].1@
                            == pre[oi].1@;
                    assert(0 <= u < t + 1 && keys@[u].0@ == out@[i].0@ && keys@[u].1@
                        == out@[i].1@);
                } else {
                    assert(keys@[t as int].0@ == out@[i].0@ && keys@[t as int].1@ == out@[i].1@);
                }
            }
            assert forall|i: int, j: int|
                #![trigger out@[i], out@[j]]
                0 <= i < j < out@.len() implies !(out@[i].0@ == out@[j].0@ && out@[i].1@
                == out@[j].1@) by {
                if i == idx || j == idx {
                    let o = if i == idx {
                        j
                    } else {
                        i
                    };
                    let oo = if o < idx {
                        o
                    } else {
                        o - 1
                    };
                    assert(out@[o] == pre[oo]);
                    assert(pair_in_prefix(pre[oo], keys@, t as int));
                    let u = choose|u: int|
                        0 <= u < t && (#[trigger] keys@[u]).0@ == pre[oo].0@ && keys@[u].1@
                            == pre[oo].1@;
                    assert(out@[idx as int].0@ == keys@[t as int].0@ && out@[idx as int].1@
                        == keys@[t as int].1@);
                    assert(!(keys@[u].0@ == keys@[t as int].0@ && keys@[u].1@
                        == keys@[t as int].1@));
                } else {
                    let oi = if i < idx {
                        i
                    } else {
                        i - 1
                    };
                    let oj = if j < idx {
                        j
                    } else {
                        j - 1
                    };
                    assert(out@[i] == pre[oi]);
                    assert(out@[j] == pre[oj]);
                    assert(0 <= oi < oj < pre.len());
                    assert(!(pre[oi].0@ == pre[oj].0@ && pre[oi].1@ == pre[oj].1@));
                }
            }
            assert forall|u: int| 0 <= u < t + 1 implies has_triple(
                out@,
                (#[trigger] keys@[u]).0@,
                keys@[u].1@,
            ) by {
                if u < t {
                    let w = choose|w: int|
                        0 <= w < pre.len() && (#[trigger] pre[w]).0@ == keys@[u].0@ && pre[w].1@
                            == keys@[u].1@;
                    let nw = if w < idx {
                        w
                    } else {
                        w + 1
                    };
                    assert(out@[nw].0@ == keys@[u].0@ && out@[nw].1@ == keys@[u].1@);
                } else {
                    assert(out@[idx as int].0@ == keys@[u].0@ && out@[idx as int].1@
                        == keys@[u].1@);
                }
            }
        }
        t = t + 1;
    }
    proof {
        assert forall|t2: int| 0 <= t2 < evs@.len() implies has_triple(
            out@,
            (#[trigger] evs@[t2]).host@,
            evs@[t2].host_ipv4@,
        ) by {
            let w = choose|w: int|
                0 <= w < keys@.len() && (#[trigger] keys@[w]).0@ == evs@[t2].host@ && keys@[w].1@
                    == evs@[t2].host_ipv4@;
            assert(has_triple(out@, keys@[w].0@, keys@[w].1@));
            let v = choose|v: int|
                0 <= v < out@.len() && (#[trigger] out@[v]).0@ == keys@[w].0@ && out@[v].1@
                    == keys@[w].1@;
            assert(out@[v].0@ == evs@[t2].host@ && out@[v].1@ == evs@[t2].host_ipv4@);
        }
    }
    out
}

/// Whether some rollup of `cs` is for category `c`.
pub open spec fn has_cat_stat(cs: Seq<CategoryStats>, c: Seq<char>) -> bool {
    exists|i: int| 0 <= i < cs.len() && (#[trigger] cs[i]).category@ == c
}

/// Whether some rollup of `ns` is for the node `(h, ip)`.
pub open spec fn has_node_stat(ns: Seq<NodeStats>, h: Seq<char>, ip: Seq<char>) -> bool {
    exists|i: int| 0 <= i < ns.len() && (#[trigger] ns[i]).host@ == h && ns[i].host_ipv4@ == ip
}

/// Dashboard order on node rollups: total descending, host ascending on ties.
pub open spec fn node_le(a: NodeStats, b: NodeStats) -> bool {
    a.total_events > b.total_events || (a.total_events == b.total_events && str_le(
        a.host@,
        b.host@,
    ))
}

/// The category rollups are correct, strictly ascending by name, and are
/// exactly one per category occurring in `evs`.
pub open spec fn categories_ok(evs: Seq<Event>, cs: Seq<CategoryStats>) -> bool {
    &&& forall|i: int| 0 <= i < cs.len() ==> cat_ok(evs, #[trigger] cs[i])
    &&& forall|i: int, j: int|
        #![trigger cs[i], cs[j]]
        0 <= i < j < cs.len() ==> str_lt(cs[i].category@, cs[j].category@)
    &&& forall|t: int| 0 <= t < evs.len() ==> has_cat_stat(cs, (#[trigger] evs[t]).category@)
    &&& forall|i: int| 0 <= i < cs.len() ==> cat_occurs(evs, (#[trigger] cs[i]).category@)
}

/// The node rollups are correct, in dashboard order, and are exactly one per
/// `(host, host_ipv4)` pair occurring in `evs`.
pub open spec fn nodes_ok(evs: Seq<Event>, ns: Seq<NodeStats>) -> bool {
    &&& forall|i: int| 0 <= i < ns.len() ==> node_ok(evs, #[trigger] ns[i])
    &&& forall|i: int, j: int|
        #![trigger ns[i], ns[j]]
        0 <= i < j < ns.len() ==> node_le(ns[i], ns[j])
    &&& forall|i: int, j: int|
        #![trigger ns[i], ns[j]]
        0 <= i < j < ns.len() ==> !(ns[i].host@ == ns[j].host@ && ns[i].host_ipv4@
            == ns[j].host_ipv4@)
    &&& forall|t: int|
        0 <= t < evs.len() ==> has_node_stat(ns, (#[trigger] evs[t]).host@, evs[t].host_ipv4@)
}

/// The dashboard rollup `d` is correct for the snapshot `evs`.
pub open spec fn dashboard_ok(evs: Seq<Event>, d: DashboardStats) -> bool {
    &&& d.total_events == evs.len()
    &&& categories_ok(evs, d.categories@)
    &&& nodes_ok(evs, d.nodes@)
}

/// Computes the dashboard rollup of a snapshot, stamping it with the
/// caller-supplied generation timestamp.
#[verifier::loop_isolation(false)]
pub fn compute_dashboard_stats_at(events: &Vec<Event>, now: String) -> (r: DashboardStats)
    ensures
        dashboard_ok(events@, r),
        r.last_updated@ == now@,
{
    let names = sorted_category_names(events);
    let mut cats: Vec<CategoryStats> = Vec::new();
    let mut i: usize = 0;
    while i < names.len()
        invariant
            i <= names@.len(),
            cats@.len() == i,
            forall|k: int| 0 <= k < i ==> cat_ok(events@, #[trigger] cats@[k]),
            forall|k: int| 0 <= k < i ==> (#[trigger] cats@[k]).category@ == names@[k]@,
        decreases names@.len() - i,
    {
        cats.push(build_category(events, &names[i]));
        i = i + 1;
    }
    proof {
        assert forall|t: int| 0 <= t < events@.len() implies has_cat_stat(
            cats@,
            (#[trigger] events@[t]).category@,
        ) by {
            let w = choose|w: int|
                0 <= w < names@.len() && #[trigger] names@[w]@ == events@[t].category@;
            assert(cats@[w].category@ == events@[t].category@);
        }
    }
    let triples = sorted_node_triples(events);
    let mut nodes: Vec<NodeStats> = Vec::new();
    let mut j: usize = 0;
    while j < triples.len()
        invariant
            j <= triples@.len(),
            nodes@.len() == j,
            forall|k: int| 0 <= k < j ==> node_ok(events@, #[trigger] nodes@[k]),
            forall|k: int|
                0 <= k < j ==> (#[trigger] nodes@[k]).host@ == triples@[k].0@
                    && nodes@[k].host_ipv4@ == triples@[k].1@ && nodes@[k].total_events
                    == triples@[k].2,
        decreases triples@.len() - j,
    {
        let node = build_node(events, &triples[j].0, &triples[j].1);
        proof {
            assert(node.total_events == events_of_node(events@, node.host@, node.host_ipv4@).len());
        }
        nodes.push(node);
        j = j + 1;
    }
    proof {
        assert forall|a: int, b: int|
            #![trigger nodes@[a], nodes@[b]]
            0 <= a < b < nodes@.len() implies node_le(nodes@[a], nodes@[b]) by {
            assert(triple_le(triples@[a], triples@[b]));
        }
        assert forall|t: int| 0 <= t < events@.len() implies has_node_stat(
            nodes@,
            (#[trigger] events@[t]).host@,
            events@[t].host_ipv4@,
        ) by {
            let w = choose|w: int|
                0 <= w < triples@.len() && (#[trigger] triples@[w]).0@ == events@[t].host@
                    && triples@[w].1@ == events@[t].host_ipv4@;
            assert(nodes@[w].host@ == events@[t].host@ && nodes@[w].host_ipv4@
                == events@[t].host_ipv4@);
        }
    }
    let total_events = events.len();
    DashboardStats { total_events, categories: cats, last_updated: now, nodes }
}

/// Relies on chrono: `Utc::now().to_rfc3339()` renders the current instant
/// as an RFC 3339 timestamp, which is never the empty string.
#[verifier::external_body]
fn current_timestamp() -> (r: String)
    ensures
        r@.len() > 0,
{
    chrono::Utc::now().to_rfc3339()
}

/// Computes the dashboard rollup of a snapshot, stamped with the instant the
/// call was made. The timestamp depends on the clock, so its exact value is
/// not specified; everything else is pinned by [`dashboard_ok`].
pub fn compute_dashboard_stats(events: &Vec<Event>) -> (r: DashboardStats)
    ensures
        dashboard_ok(events@, r),
        r.last_updated@.len() > 0,
{
    let now = current_timestamp();
    compute_dashboard_stats_at(events, now)
}

/// The sum of the category rollups' total counts.
pub open spec fn sum_category_totals(cs: Seq<CategoryStats>) -> int
    decreases cs.len(),
{
    if cs.len() == 0 {
        0
    } else {
        sum_category_totals(cs.drop_last()) + cs.last().total_count
    }
}

/// The sum of the node rollups' total counts.
pub open spec fn sum_node_totals(ns: Seq<NodeStats>) -> int
    decreases ns.len(),
{
    if ns.len() == 0 {
        0
    } else {
        sum_node_totals(ns.drop_last()) + ns.last().total_events
    }
}

/// The sum of the category group sizes over the rollups' keys.
spec fn sum_cat_groups(cs: Seq<CategoryStats>, evs: Seq<Event>) -> int
    decreases cs.len(),
{
    if cs.len() == 0 {
        0
    } else {
        sum_cat_groups(cs.drop_last(), evs) + events_in_category(evs, cs.last().category@).len()
    }
}

/// How many rollups of `cs` carry the category name `c`.
spec fn cat_occ(cs: Seq<CategoryStats>, c: Seq<char>) -> int
    decreases cs.len(),
{
    if cs.len() == 0 {
        0
    } else {
        cat_occ(cs.drop_last(), c) + if cs.last().category@ == c {
            1int
        } else {
            0int
        }
    }
}

proof fn lemma_sum_cat_totals_groups(cs: Seq<CategoryStats>, evs: Seq<Event>)
    requires
        forall|i: int|
            0 <= i < cs.len() ==> (#[trigger] cs[i]).total_count == events_in_category(
                evs,
                cs[i].category@,
            ).len(),
    ensures
        sum_category_totals(cs) == sum_cat_groups(cs, evs),
    decreases cs.len(),
{
    if cs.len() > 0 {
        assert(forall|i: int|
            0 <= i < cs.drop_last().len() ==> #[trigger] cs.drop_last()[i] == cs[i]);
        lemma_sum_cat_totals_groups(cs.drop_last(), evs);
    }
}

proof fn lemma_sum_cat_groups_step(cs: Seq<CategoryStats>, evs: Seq<Event>)
    requires
        evs.len() > 0,
    ensures
        sum_cat_groups(cs, evs) == sum_cat_groups(cs, evs.drop_last()) + cat_occ(
            cs,
            evs.last().category@,
        ),
    decreases cs.len(),
{
    if cs.len() > 0 {
        lemma_sum_cat_groups_step(cs.drop_last(), evs);
    }
}

proof fn lemma_cat_occ_zero(cs: Seq<CategoryStats>, c: Seq<char>)
    requires
        forall|i: int| 0 <= i < cs.len() ==> (#[trigger] cs[i]).category@ != c,
    ensures
        cat_occ(cs, c) == 0,
    decreases cs.len(),
{
    if cs.len() > 0 {
        assert(forall|i: int|
            0 <= i < cs.drop_last().len() ==> #[trigger] cs.drop_last()[i] == cs[i]);
        lemma_cat_occ_zero(cs.drop_last(), c);
    }
}

proof fn lemma_cat_occ_unique(cs: Seq<CategoryStats>, c: Seq<char>)
    requires
        forall|i: int, j: int|
            #![trigger cs[i], cs[j]]
            0 <= i < j < cs.len() ==> cs[i].category@ != cs[j].category@,
        has_cat_stat(cs, c),
    ensures
        cat_occ(cs, c) == 1,
    decreases cs.len(),
{
    assert(forall|i: int| 0 <= i < cs.drop_last().len() ==> #[trigger] cs.drop_last()[i] == cs[i]);
    if cs.last().category@ == c {
        assert forall|i: int| 0 <= i < cs.drop_last().len() implies (#[trigger] cs.drop_last()[
            i
        ]).category@ != c by {
            assert(cs[i].category@ != cs[cs.len() - 1].category@);
        }
        lemma_cat_occ_zero(cs.drop_last(), c);
    } else {
        let w = choose|w: int| 0 <= w < cs.len() && (#[trigger] cs[w]).category@ == c;
        assert(w < cs.len() - 1);
        assert(cs.drop_last()[w].category@ == c);
        assert(has_cat_stat(cs.drop_last(), c));
        lemma_cat_occ_unique(cs.drop_last(), c);
    }
}

proof fn lemma_sum_cat_groups_len(cs: Seq<CategoryStats>, evs: Seq<Event>)
    requires
        forall|i: int, j: int|
            #![trigger cs[i], cs[j]]
            0 <= i < j < cs.len() ==> cs[i].category@ != cs[j].category@,
        forall|t: int| 0 <= t < evs.len() ==> has_cat_stat(cs, (#[trigger] evs[t]).category@),
    ensures
        sum_cat_groups(cs, evs) == evs.len(),
    decreases evs.len(),
{
    if evs.len() == 0 {
        assert(evs =~= Seq::<Event>::empty());
        lemma_sum_cat_groups_empty(cs);
    } else {
        lemma_sum_cat_groups_step(cs, evs);
        assert(forall|t: int|
            0 <= t < evs.drop_last().len() ==> #[trigger] evs.drop_last()[t] == evs[t]);
        lemma_sum_cat_groups_len(cs, evs.drop_last());
        assert(evs.last() == evs[evs.len() - 1]);
        assert(has_cat_stat(cs, evs.last().category@));
        lemma_cat_occ_unique(cs, evs.last().category@);
    }
}

proof fn lemma_sum_cat_groups_empty(cs: Seq<CategoryStats>)
    ensures
        sum_cat_groups(cs, Seq::<Event>::empty()) == 0,
    decreases cs.len(),
{
    if cs.len() > 0 {
        lemma_sum_cat_groups_empty(cs.drop_last());
    }
}

/// Category total invariant: over any correct dashboard rollup, the category
/// totals sum to the store's total event count, because the categories
/// partition the events.
pub proof fn lemma_category_totals(evs: Seq<Event>, d: DashboardStats)
    requires
        dashboard_ok(evs, d),
    ensures
        sum_category_totals(d.categories@) == d.total_events,
{
    let cs = d.categories@;
    assert forall|i: int, j: int|
        #![trigger cs[i], cs[j]]
        0 <= i < j < cs.len() implies cs[i].category@ != cs[j].category@ by {
        crate::order::lemma_str_lt_irrefl(cs[i].category@);
    }
    lemma_sum_cat_totals_groups(cs, evs);
    lemma_sum_cat_groups_len(cs, evs);
}

/// The sum of the node group sizes over the rollups' keys.
spec fn sum_node_groups(ns: Seq<NodeStats>, evs: Seq<Event>) -> int
    decreases ns.len(),
{
    if ns.len() == 0 {
        0
    } else {
        sum_node_groups(ns.drop_last(), evs) + events_of_node(
            evs,
            ns.last().host@,
            ns.last().host_ipv4@,
        ).len()
    }
}

/// How many rollups of `ns` carry the node pair `(h, ip)`.
spec fn node_occ(ns: Seq<NodeStats>, h: Seq<char>, ip: Seq<char>) -> int
    decreases ns.len(),
{
    if ns.len() == 0 {
        0
    } else {
        node_occ(ns.drop_last(), h, ip) + if ns.last().host@ == h && ns.last().host_ipv4@ == ip {
            1int
        } else {
            0int
        }
    }
}

proof fn lemma_sum_node_totals_groups(ns: Seq<NodeStats>, evs: Seq<Event>)
    requires
        forall|i: int|
            0 <= i < ns.len() ==> (#[trigger] ns[i]).total_events == events_of_node(
                evs,
                ns[i].host@,
                ns[i].host_ipv4@,
            ).len(),
    ensures
        sum_node_totals(ns) == sum_node_groups(ns, evs),
    decreases ns.len(),
{
    if ns.len() > 0 {
        assert(forall|i: int|
            0 <= i < ns.drop_last().len() ==> #[trigger] ns.drop_last()[i] == ns[i]);
        lemma_sum_node_totals_groups(ns.drop_last(), evs);
    }
}

proof fn lemma_sum_node_groups_step(ns: Seq<NodeStats>, evs: Seq<Event>)
    requires
        evs.len() > 0,
    ensures
        sum_node_groups(ns, evs) == sum_node_groups(ns, evs.drop_last()) + node_occ(
            ns,
            evs.last().host@,
            evs.last().host_ipv4@,
        ),
    decreases ns.len(),
{
    if ns.len() > 0 {
        lemma_sum_node_groups_step(ns.drop_last(), evs);
    }
}

proof fn lemma_node_occ_zero(ns: Seq<NodeStats>, h: Seq<char>, ip: Seq<char>)
    requires
        forall|i: int|
            0 <= i < ns.len() ==> !((#[trigger] ns[i]).host@ == h && ns[i].host_ipv4@ == ip),
    ensures
        node_occ(ns, h, ip) == 0,
    decreases ns.len(),
{
    if ns.len() > 0 {
        assert(forall|i: int|
            0 <= i < ns.drop_last().len() ==> #[trigger] ns.drop_last()[i] == ns[i]);
        lemma_node_occ_zero(ns.drop_last(), h, ip);
    }
}

proof fn lemma_node_occ_unique(ns: Seq<NodeStats>, h: Seq<char>, ip: Seq<char>)
    requires
        forall|i: int, j: int|
            #![trigger ns[i], ns[j]]
            0 <= i < j < ns.len() ==> !(ns[i].host@ == ns[j].host@ && ns[i].host_ipv4@
                == ns[j].host_ipv4@),
        has_node_stat(ns, h, ip),
    ensures
        node_occ(ns, h, ip) == 1,
    decreases ns.len(),
{
    assert(forall|i: int| 0 <= i < ns.drop_last().len() ==> #[trigger] ns.drop_last()[i] == ns[i]);
    if ns.last().host@ == h && ns.last().host_ipv4@ == ip {
        assert forall|i: int| 0 <= i < ns.drop_last().len() implies !((#[trigger] ns.drop_last()[
            i
        ]).host@ == h && ns.drop_last()[i].host_ipv4@ == ip) by {
            assert(!(ns[i].host@ == ns[ns.len() - 1].host@ && ns[i].host_ipv4@ == ns[ns.len()
                - 1].host_ipv4@));
        }
        lemma_node_occ_zero(ns.drop_last(), h, ip);
    } else {
        let w = choose|w: int|
            0 <= w < ns.len() && (#[trigger] ns[w]).host@ == h && ns[w].host_ipv4@ == ip;
        assert(w < ns.len() - 1);
        assert(ns.drop_last()[w].host@ == h && ns.drop_last()[w].host_ipv4@ == ip);
        assert(has_node_stat(ns.drop_last(), h, ip));
        lemma_node_occ_unique(ns.drop_last(), h, ip);
    }
}

proof fn lemma_sum_node_groups_empty(ns: Seq<NodeStats>)
    ensures
        sum_node_groups(ns, Seq::<Event>::empty()) == 0,
    decreases ns.len(),
{
    if ns.len() > 0 {
        lemma_sum_node_groups_empty(ns.drop_last());
    }
}

proof fn lemma_sum_node_groups_len(ns: Seq<NodeStats>, evs: Seq<Event>)
    requires
        forall|i: int, j: int|
            #![trigger ns[i], ns[j]]
            0 <= i < j < ns.len() ==> !(ns[i].host@ == ns[j].host@ && ns[i].host_ipv4@
                == ns[j].host_ipv4@),
        forall|t: int|
            0 <= t < evs.len() ==> has_node_stat(ns, (#[trigger] evs[t]).host@, evs[t].host_ipv4@),
    ensures
        sum_node_groups(ns, evs) == evs.len(),
    decreases evs.len(),
{
    if evs.len() == 0 {
        assert(evs =~= Seq::<Event>::empty());
        lemma_sum_node_groups_empty(ns);
    } else {
        lemma_sum_node_groups_step(ns, evs);
        assert(forall|t: int|
            0 <= t < evs.drop_last().len() ==> #[trigger] evs.drop_last()[t] == evs[t]);
        lemma_sum_node_groups_len(ns, evs.drop_last());
        assert(evs.last() == evs[evs.len() - 1]);
        assert(has_node_stat(ns, evs.last().host@, evs.last().host_ipv4@));
        lemma_node_occ_unique(ns, evs.last().host@, evs.last().host_ipv4@);
    }
}

/// Node total invariant: over any correct dashboard rollup, the node totals
/// sum to the store's total event count, because the `(host, host_ipv4)`
/// pairs partition the events.
pub proof fn lemma_node_totals(evs: Seq<Event>, d: DashboardStats)
    requires
        dashboard_ok(evs, d),
    ensures
        sum_node_totals(d.nodes@) == d.total_events,
{
    lemma_sum_node_totals_groups(d.nodes@, evs);
    lemma_sum_node_groups_len(d.nodes@, evs);
}

/// Among the node rollups, ties on the total are broken strictly ascending by
/// host wherever the hosts differ; two rollups share a host only when their
/// `host_ipv4` differs.
pub proof fn lemma_node_tie_break(evs: Seq<Event>, d: DashboardStats, i: int, j: int)
    requires
        dashboard_ok(evs, d),
        0 <= i < j < d.nodes@.len(),
        d.nodes@[i].total_events == d.nodes@[j].total_events,
        d.nodes@[i].host@ != d.nodes@[j].host@,
    ensures
        str_lt(d.nodes@[i].host@, d.nodes@[j].host@),
{
    assert(node_le(d.nodes@[i], d.nodes@[j]));
}

} // verus!
