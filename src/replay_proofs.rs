//! What holds of every replay-operation map that a trace yields: where the
//! stores go, which sync ids appear, the order of props, `max_tid`, and when
//! the pending queue is flushed.
use vstd::prelude::*;

use crate::replay::{
    attributable, attributes_store, build_state, canonical, creates_single, group_onto,
    grouped_ops, is_flushing_call, max_u64, replay_log, replay_ops_of, reordered, step, store_of,
    upsert, BuildState, OpView, PropView, ReplayMemStore, SingleView,
};
use crate::trace::TraceOp;

verus! {

broadcast use {vstd::seq_lib::group_to_multiset_ensures, vstd::multiset::group_multiset_axioms};

/// The concatenation of `f` over `s`.
pub open spec fn flat<A, B>(s: Seq<A>, f: spec_fn(A) -> Seq<B>) -> Seq<B>
    decreases s.len(),
{
    if s.len() == 0 {
        Seq::empty()
    } else {
        flat(s.drop_last(), f) + f(s.last())
    }
}

/// All stores of `props`, prop after prop.
pub open spec fn stores_of(props: Seq<PropView>) -> Seq<ReplayMemStore> {
    flat(props, |p: PropView| p.stores)
}

/// The sync ids of `props`, in order.
pub open spec fn sync_ids(props: Seq<PropView>) -> Seq<u64> {
    flat(props, |p: PropView| seq![p.sync_id])
}

/// The stores that the accesses of a trace carry, in trace order.
pub open spec fn differ_stores(trace: Seq<TraceOp>) -> Seq<ReplayMemStore>
    decreases trace.len(),
{
    if trace.len() == 0 {
        Seq::empty()
    } else if attributes_store(trace.last()) {
        differ_stores(trace.drop_last()).push(store_of(trace.last()))
    } else {
        differ_stores(trace.drop_last())
    }
}

/// The number of calls and synchronization accesses in a trace.
pub open spec fn count_singles(trace: Seq<TraceOp>) -> nat
    decreases trace.len(),
{
    if trace.len() == 0 {
        0
    } else if creates_single(trace.last()) {
        count_singles(trace.drop_last()) + 1
    } else {
        count_singles(trace.drop_last())
    }
}

/// The props of all operations of `m`, taken in the order of `keys`.
pub open spec fn all_props(m: Map<u32, OpView>, keys: Seq<u32>) -> Seq<PropView>
    decreases keys.len(),
{
    if keys.len() == 0 {
        Seq::empty()
    } else {
        all_props(m, keys.drop_last()) + m[keys.last()].props
    }
}

/// `keys` lists each key of `m` once.
pub open spec fn enumerates(keys: Seq<u32>, m: Map<u32, OpView>) -> bool {
    keys.no_duplicates() && keys.to_set() == m.dom()
}

/// `t` is the largest thread id among `props`.
pub open spec fn is_max_tid(props: Seq<PropView>, t: u64) -> bool {
    &&& forall|i: int| 0 <= i < props.len() ==> (#[trigger] props[i]).tid <= t
    &&& exists|i: int| 0 <= i < props.len() && (#[trigger] props[i]).tid == t
}

pub open spec fn log_props(log: Seq<SingleView>) -> Seq<PropView> {
    log.map_values(|s: SingleView| s.prop)
}

/// The props of the operations of `log` at location `k`, in order.
pub open spec fn props_at(log: Seq<SingleView>, k: u32) -> Seq<PropView>
    decreases log.len(),
{
    if log.len() == 0 {
        Seq::empty()
    } else if log.last().access_idx == k {
        props_at(log.drop_last(), k).push(log.last().prop)
    } else {
        props_at(log.drop_last(), k)
    }
}

/// The props of the operations of `log` at locations in `ks`, in order.
pub open spec fn props_in(log: Seq<SingleView>, ks: Set<u32>) -> Seq<PropView>
    decreases log.len(),
{
    if log.len() == 0 {
        Seq::empty()
    } else if ks.contains(log.last().access_idx) {
        props_in(log.drop_last(), ks).push(log.last().prop)
    } else {
        props_in(log.drop_last(), ks)
    }
}

proof fn lemma_attributable_prefix(trace: Seq<TraceOp>)
    requires
        trace.len() > 0,
        attributable(trace),
    ensures
        attributable(trace.drop_last()),
{
    let t = trace.drop_last();
    assert forall|i: int| 0 <= i < t.len() && #[trigger] attributes_store(t[i]) implies exists|j: int|
        0 <= j < i && #[trigger] creates_single(t[j]) by {
        assert(t[i] == trace[i]);
        let j = choose|j: int| 0 <= j < i && #[trigger] creates_single(trace[j]);
        assert(t[j] == trace[j]);
    }
}

proof fn lemma_flat_concat<A, B>(a: Seq<A>, b: Seq<A>, f: spec_fn(A) -> Seq<B>)
    ensures
        flat(a + b, f) == flat(a, f) + flat(b, f),
    decreases b.len(),
{
    if b.len() == 0 {
        assert(a + b =~= a);
        assert(flat(a, f) + flat(b, f) =~= flat(a, f));
    } else {
        lemma_flat_concat(a, b.drop_last(), f);
        assert((a + b).drop_last() =~= a + b.drop_last());
        assert(flat(a + b, f) =~= flat(a, f) + flat(b, f));
    }
}

/// `flat` sees only the multiset of its argument.
pub proof fn lemma_flat_permutation<A, B>(a: Seq<A>, b: Seq<A>, f: spec_fn(A) -> Seq<B>)
    requires
        a.to_multiset() == b.to_multiset(),
    ensures
        flat(a, f).to_multiset() == flat(b, f).to_multiset(),
    decreases a.len(),
{
    if a.len() == 0 {
        assert(b.to_multiset().len() == b.len());
        assert(b.len() == 0);
        assert(flat(a, f) =~= flat(b, f));
    } else {
        let x = a.last();
        assert(a.to_multiset().count(x) > 0) by {
            assert(a.drop_last().push(x) =~= a);
        }
        assert(b.contains(x));
        let j = choose|j: int| 0 <= j < b.len() && b[j] == x;
        let br = b.remove(j);
        assert(a.drop_last().push(x) =~= a);
        assert(a.drop_last().to_multiset() =~= br.to_multiset());
        lemma_flat_permutation(a.drop_last(), br, f);
        assert(b =~= b.take(j) + seq![x] + b.skip(j + 1));
        assert(br =~= b.take(j) + b.skip(j + 1));
        lemma_flat_concat(b.take(j) + seq![x], b.skip(j + 1), f);
        lemma_flat_concat(b.take(j), seq![x], f);
        lemma_flat_concat(b.take(j), b.skip(j + 1), f);
        assert(seq![x].drop_last() =~= Seq::<A>::empty());
        assert(flat(seq![x].drop_last(), f) =~= Seq::<B>::empty());
        assert(flat(seq![x], f) =~= f(x));
        vstd::seq_lib::lemma_multiset_commutative(flat(b.take(j), f) + f(x), flat(b.skip(j + 1), f));
        vstd::seq_lib::lemma_multiset_commutative(flat(b.take(j), f), f(x));
        vstd::seq_lib::lemma_multiset_commutative(flat(b.take(j), f), flat(b.skip(j + 1), f));
        vstd::seq_lib::lemma_multiset_commutative(flat(a.drop_last(), f), f(x));
        assert(flat(a, f).to_multiset() =~= flat(b, f).to_multiset());
    }
}

/// The stores attached to the pending queue: only its front carries any.
pub open spec fn queue_stores(q: Seq<SingleView>) -> Seq<ReplayMemStore> {
    if q.len() > 0 {
        q[0].prop.stores
    } else {
        Seq::empty()
    }
}

/// What the construction state holds after each prefix of a trace.
proof fn lemma_build_state_facts(trace: Seq<TraceOp>)
    requires
        attributable(trace),
        trace.len() <= u64::MAX,
    ensures
        ({
            let s = build_state(trace);
            let log = s.flushed + s.queue;
            &&& s.count == count_singles(trace)
            &&& s.count <= trace.len()
            &&& log.len() == s.count
            &&& forall|i: int| 0 <= i < log.len() ==> (#[trigger] log[i]).prop.sync_id == i + 1
            &&& forall|i: int| 1 <= i < s.queue.len() ==> (#[trigger] s.queue[i]).prop.stores.len()
                == 0
            &&& s.queue.len() > 0 || forall|j: int| 0 <= j < trace.len() ==> !#[trigger] creates_single(
                trace[j],
            )
            &&& stores_of(log_props(s.flushed)) + queue_stores(s.queue) == differ_stores(trace)
        }),
    decreases trace.len(),
{
    if trace.len() > 0 {
        let t0 = trace.drop_last();
        let op = trace.last();
        lemma_attributable_prefix(trace);
        lemma_build_state_facts(t0);
        let s0 = build_state(t0);
        let s = build_state(trace);
        assert(s == step(s0, op));
        let log0 = s0.flushed + s0.queue;
        let q1 = if attributes_store(op) {
            crate::replay::attach(s0.queue, store_of(op))
        } else {
            s0.queue
        };
        if attributes_store(op) {
            assert(attributes_store(trace[trace.len() - 1]));
            let j = choose|j: int| 0 <= j < trace.len() - 1 && #[trigger] creates_single(trace[j]);
            assert(t0[j] == trace[j]);
            assert(s0.queue.len() > 0);
            assert(queue_stores(q1) == queue_stores(s0.queue).push(store_of(op)));
        }
        assert(q1.len() == s0.queue.len());
        assert(forall|i: int| 0 <= i < q1.len() ==> (#[trigger] q1[i]).prop.sync_id == s0.queue[i].prop.sync_id);
        assert(forall|i: int| 1 <= i < q1.len() ==> (#[trigger] q1[i]) == s0.queue[i]);
        assert(stores_of(log_props(s0.flushed)) + queue_stores(q1) == differ_stores(trace));
        let log = s.flushed + s.queue;
        if creates_single(op) {
            let single = crate::replay::single_of(op, s0.count + 1);
            assert(single.prop.sync_id == s0.count + 1);
            assert(single.prop.stores.len() == 0);
            if op is Call && is_flushing_call(op->Call_call_id) {
                assert(log =~= (s0.flushed + q1).push(single));
                assert(log_props(s0.flushed + q1) =~= log_props(s0.flushed) + log_props(q1));
                lemma_flat_concat(log_props(s0.flushed), log_props(q1), |p: PropView| p.stores);
                lemma_queue_flat(q1);
                assert(queue_stores(s.queue) =~= Seq::empty());
                assert(stores_of(log_props(s.flushed)) + queue_stores(s.queue) =~= differ_stores(
                    trace,
                ));
            } else {
                assert(log =~= (s0.flushed + q1).push(single));
                if s0.queue.len() > 0 {
                    assert(queue_stores(s.queue) == queue_stores(q1));
                } else {
                    assert(queue_stores(s.queue) =~= Seq::empty());
                    assert(queue_stores(q1) =~= Seq::empty());
                }
            }
            assert forall|i: int| 0 <= i < log.len() implies (#[trigger] log[i]).prop.sync_id == i + 1 by {
                if i < log.len() - 1 {
                    assert(log[i] == (s0.flushed + q1)[i]);
                    if i >= s0.flushed.len() {
                        assert((s0.flushed + q1)[i] == q1[i - s0.flushed.len()]);
                        assert(log0[i] == s0.queue[i - s0.flushed.len()]);
                    } else {
                        assert(log0[i] == s0.flushed[i]);
                    }
                }
            }
        } else {
            assert forall|i: int| 0 <= i < log.len() implies (#[trigger] log[i]).prop.sync_id == i + 1 by {
                if i >= s0.flushed.len() {
                    assert(log[i] == q1[i - s0.flushed.len()]);
                    assert(log0[i] == s0.queue[i - s0.flushed.len()]);
                } else {
                    assert(log0[i] == s0.flushed[i]);
                }
            }
            assert forall|j: int| 0 <= j < trace.len() && s.queue.len() == 0 implies !#[trigger] creates_single(trace[j]) by {
                if j < trace.len() - 1 {
                    assert(t0[j] == trace[j]);
                }
            }
        }
    } else {
        assert(differ_stores(trace) =~= Seq::empty());
        assert(log_props(Seq::<SingleView>::empty()) =~= Seq::empty());
        assert(stores_of(log_props(build_state(trace).flushed)) =~= Seq::empty());
    }
}

/// The stores of a queue whose only front may carry stores.
proof fn lemma_queue_flat(q: Seq<SingleView>)
    requires
        forall|i: int| 1 <= i < q.len() ==> (#[trigger] q[i]).prop.stores.len() == 0,
    ensures
        stores_of(log_props(q)) == queue_stores(q),
    decreases q.len(),
{
    if q.len() > 0 {
        lemma_queue_flat(q.drop_last());
        assert(log_props(q).drop_last() =~= log_props(q.drop_last()));
        if q.len() > 1 {
            assert(q.last().prop.stores =~= Seq::empty());
            assert(stores_of(log_props(q)) =~= stores_of(log_props(q.drop_last())));
        } else {
            assert(log_props(q.drop_last()) =~= Seq::empty());
            assert(stores_of(log_props(q.drop_last())) =~= Seq::empty());
            assert(stores_of(log_props(q)) =~= queue_stores(q));
        }
    } else {
        assert(log_props(q) =~= Seq::empty());
    }
}

/// The grouped map holds, at each location, the props of the log there, in
/// log order, with their largest thread id.
proof fn lemma_group_facts(log: Seq<SingleView>)
    ensures
        ({
            let g = group_onto(Map::empty(), log);
            &&& forall|k: u32|
                #![trigger g.contains_key(k)]
                g.contains_key(k) ==> g[k].props == props_at(log, k) && g[k].access_idx == k
                    && is_max_tid(g[k].props, g[k].max_tid)
            &&& forall|k: u32| #![trigger g.contains_key(k)] !g.contains_key(k) ==> props_at(log, k).len() == 0
            &&& forall|i: int| 0 <= i < log.len() ==> g.contains_key(#[trigger] log[i].access_idx)
        }),
    decreases log.len(),
{
    if log.len() > 0 {
        let log0 = log.drop_last();
        let x = log.last();
        lemma_group_facts(log0);
        let g0 = group_onto(Map::empty(), log0);
        let g = group_onto(Map::empty(), log);
        assert(g == upsert(g0, x));
        let kx = x.access_idx;
        assert forall|k: u32| #![trigger g.contains_key(k)] g.contains_key(k) implies g[k].props
            == props_at(log, k) && g[k].access_idx == k && is_max_tid(g[k].props, g[k].max_tid) by {
            if k == kx {
                if g0.contains_key(k) {
                    let o = g0[k];
                    let np = o.props.push(x.prop);
                    let nm = max_u64(o.max_tid, x.prop.tid);
                    assert(g[k].props == np);
                    assert forall|i: int| 0 <= i < np.len() implies (#[trigger] np[i]).tid <= nm by {
                        if i < o.props.len() {
                            assert(np[i] == o.props[i]);
                        }
                    }
                    if nm == x.prop.tid {
                        assert(np[np.len() - 1].tid == nm);
                    } else {
                        let w = choose|i: int| 0 <= i < o.props.len() && (#[trigger] o.props[i]).tid == o.max_tid;
                        assert(np[w] == o.props[w]);
                    }
                } else {
                    assert(props_at(log0, k).len() == 0);
                    assert(props_at(log, k) =~= seq![x.prop]);
                    assert(g[k].props[0].tid == g[k].max_tid);
                }
            }
        }
        assert forall|i: int| 0 <= i < log.len() implies g.contains_key(#[trigger] log[i].access_idx) by {
            if i < log.len() - 1 {
                assert(log[i] == log0[i]);
                assert(g0.contains_key(log0[i].access_idx));
            }
        }
    } else {
        assert(group_onto(Map::empty(), log) == Map::<u32, OpView>::empty());
    }
}

/// Splitting the locations of `ks + {k}` into `ks` and `k`.
proof fn lemma_props_in_split(log: Seq<SingleView>, ks: Set<u32>, k: u32)
    requires
        !ks.contains(k),
    ensures
        props_in(log, ks.insert(k)).to_multiset() == props_in(log, ks).to_multiset().add(
            props_at(log, k).to_multiset(),
        ),
    decreases log.len(),
{
    if log.len() > 0 {
        lemma_props_in_split(log.drop_last(), ks, k);
        assert(props_in(log, ks.insert(k)).to_multiset() =~= props_in(log, ks).to_multiset().add(
            props_at(log, k).to_multiset(),
        ));
    } else {
        assert(props_in(log, ks.insert(k)).to_multiset() =~= props_in(log, ks).to_multiset().add(
            props_at(log, k).to_multiset(),
        ));
    }
}

/// With every location of the log in `ks`, `props_in` is the whole log.
proof fn lemma_props_in_all(log: Seq<SingleView>, ks: Set<u32>)
    requires
        forall|i: int| 0 <= i < log.len() ==> ks.contains(#[trigger] log[i].access_idx),
    ensures
        props_in(log, ks) == log_props(log),
    decreases log.len(),
{
    if log.len() > 0 {
        assert forall|i: int| 0 <= i < log.drop_last().len() implies ks.contains(
            #[trigger] log.drop_last()[i].access_idx,
        ) by {
            assert(log.drop_last()[i] == log[i]);
        }
        lemma_props_in_all(log.drop_last(), ks);
        assert(ks.contains(log[log.len() - 1].access_idx));
        assert(log_props(log) =~= log_props(log.drop_last()).push(log.last().prop));
    } else {
        assert(log_props(log) =~= Seq::empty());
    }
}

/// The props of `m` over an enumeration of some of the log's locations are,
/// as a multiset, the log's props at those locations.
proof fn lemma_all_props_multiset(m: Map<u32, OpView>, log: Seq<SingleView>, keys: Seq<u32>)
    requires
        keys.no_duplicates(),
        forall|i: int|
            0 <= i < keys.len() ==> (#[trigger] m[keys[i]]).props.to_multiset() == props_at(
                log,
                keys[i],
            ).to_multiset(),
    ensures
        all_props(m, keys).to_multiset() == props_in(log, keys.to_set()).to_multiset(),
    decreases keys.len(),
{
    if keys.len() > 0 {
        let k0 = keys.drop_last();
        let k = keys.last();
        assert forall|i: int| 0 <= i < k0.len() implies (#[trigger] m[k0[i]]).props.to_multiset()
            == props_at(log, k0[i]).to_multiset() by {
            assert(k0[i] == keys[i]);
        }
        assert(k0.no_duplicates()) by {
            assert forall|i: int, j: int| 0 <= i < j < k0.len() implies k0[i] != k0[j] by {
                assert(k0[i] == keys[i] && k0[j] == keys[j]);
            }
        }
        lemma_all_props_multiset(m, log, k0);
        assert(!k0.to_set().contains(k)) by {
            if k0.to_set().contains(k) {
                let i = choose|i: int| 0 <= i < k0.len() && k0[i] == k;
                assert(keys[i] == keys[keys.len() - 1]);
            }
        }
        assert(keys.to_set() =~= k0.to_set().insert(k)) by {
            assert(keys =~= k0 + seq![k]);
            Seq::lemma_to_set_insert_commutes(k0, k);
        }
        lemma_props_in_split(log, k0.to_set(), k);
        assert(m[keys[keys.len() - 1]].props.to_multiset() == props_at(log, k).to_multiset());
        vstd::seq_lib::lemma_multiset_commutative(all_props(m, k0), m[k].props);
    } else {
        assert(keys.to_set() =~= Set::empty());
        assert(props_in(log, Set::empty()) =~= Seq::empty()) by {
            lemma_props_in_none(log);
        }
    }
}

proof fn lemma_props_in_none(log: Seq<SingleView>)
    ensures
        props_in(log, Set::empty()) == Seq::<PropView>::empty(),
    decreases log.len(),
{
    if log.len() > 0 {
        lemma_props_in_none(log.drop_last());
    }
}

/// Over any enumeration of its locations, the props of a replay map are the
/// props of the trace's log, as a multiset.
proof fn lemma_all_props_are_log(trace: Seq<TraceOp>, m: Map<u32, OpView>, keys: Seq<u32>)
    requires
        replay_ops_of(trace, m),
        enumerates(keys, m),
    ensures
        all_props(m, keys).to_multiset() == log_props(replay_log(trace)).to_multiset(),
{
    let log = replay_log(trace);
    let g = grouped_ops(trace);
    lemma_group_facts(log);
    assert forall|i: int| 0 <= i < keys.len() implies (#[trigger] m[keys[i]]).props.to_multiset()
        == props_at(log, keys[i]).to_multiset() by {
        assert(keys.to_set().contains(keys[i]));
        assert(m.contains_key(keys[i]));
        assert(reordered(m[keys[i]], g[keys[i]]));
        assert(g.contains_key(keys[i]));
    }
    lemma_all_props_multiset(m, log, keys);
    assert forall|i: int| 0 <= i < log.len() implies keys.to_set().contains(#[trigger] log[i].access_idx) by {
        assert(g.contains_key(log[i].access_idx));
    }
    lemma_props_in_all(log, keys.to_set());
}

/// The stores of the log are the stores of the trace, in trace order.
proof fn lemma_log_stores(trace: Seq<TraceOp>)
    requires
        attributable(trace),
        trace.len() <= u64::MAX,
    ensures
        stores_of(log_props(replay_log(trace))) == differ_stores(trace),
{
    lemma_build_state_facts(trace);
    let s = build_state(trace);
    assert(log_props(s.flushed + s.queue) =~= log_props(s.flushed) + log_props(s.queue));
    lemma_flat_concat(log_props(s.flushed), log_props(s.queue), |p: PropView| p.stores);
    lemma_queue_flat(s.queue);
}

proof fn lemma_sync_ids_log(log: Seq<SingleView>)
    requires
        forall|i: int| 0 <= i < log.len() ==> (#[trigger] log[i]).prop.sync_id == i + 1,
    ensures
        sync_ids(log_props(log)) == Seq::new(log.len(), |i: int| (i + 1) as u64),
    decreases log.len(),
{
    if log.len() > 0 {
        assert forall|i: int| 0 <= i < log.drop_last().len() implies (
        #[trigger] log.drop_last()[i]).prop.sync_id == i + 1 by {
            assert(log.drop_last()[i] == log[i]);
        }
        lemma_sync_ids_log(log.drop_last());
        assert(log_props(log).drop_last() =~= log_props(log.drop_last()));
        assert(log[log.len() - 1].prop.sync_id == log.len());
        assert(sync_ids(log_props(log)) =~= Seq::new(log.len(), |i: int| (i + 1) as u64));
    } else {
        assert(log_props(log) =~= Seq::empty());
        assert(sync_ids(log_props(log)) =~= Seq::new(log.len(), |i: int| (i + 1) as u64));
    }
}

/// Store attribution: across all props of the replay map, the stores are
/// exactly those that the trace's differing accesses carry (as a multiset):
/// none is lost, none is attributed twice.
pub proof fn lemma_store_attribution(trace: Seq<TraceOp>, m: Map<u32, OpView>, keys: Seq<u32>)
    requires
        attributable(trace),
        trace.len() <= u64::MAX,
        replay_ops_of(trace, m),
        enumerates(keys, m),
    ensures
        stores_of(all_props(m, keys)).to_multiset() == differ_stores(trace).to_multiset(),
{
    lemma_all_props_are_log(trace, m, keys);
    lemma_flat_permutation(all_props(m, keys), log_props(replay_log(trace)), |p: PropView| p.stores);
    lemma_log_stores(trace);
}

/// Sync ids: across all props of the replay map, the sync ids are a
/// permutation of `1..=N`, `N` the number of calls and synchronization
/// accesses of the trace; so they are pairwise distinct.
pub proof fn lemma_sync_ids_cover(trace: Seq<TraceOp>, m: Map<u32, OpView>, keys: Seq<u32>)
    requires
        attributable(trace),
        trace.len() <= u64::MAX,
        replay_ops_of(trace, m),
        enumerates(keys, m),
    ensures
        sync_ids(all_props(m, keys)).to_multiset() == Seq::new(
            count_singles(trace),
            |i: int| (i + 1) as u64,
        ).to_multiset(),
{
    lemma_all_props_are_log(trace, m, keys);
    lemma_flat_permutation(all_props(m, keys), log_props(replay_log(trace)), |p: PropView| seq![p.sync_id]);
    lemma_build_state_facts(trace);
    lemma_sync_ids_log(replay_log(trace));
}

/// Canonical order: the props of every operation are non-decreasing by
/// `(tid, sync_id)`.
pub proof fn lemma_canonical_props(trace: Seq<TraceOp>, m: Map<u32, OpView>, k: u32)
    requires
        replay_ops_of(trace, m),
        m.contains_key(k),
    ensures
        canonical(m[k].props),
{
}

/// `max_tid` of every operation is the largest thread id among its props.
pub proof fn lemma_max_tid(trace: Seq<TraceOp>, m: Map<u32, OpView>, k: u32)
    requires
        replay_ops_of(trace, m),
        m.contains_key(k),
    ensures
        is_max_tid(m[k].props, m[k].max_tid),
{
    let g = grouped_ops(trace);
    lemma_group_facts(replay_log(trace));
    assert(reordered(m[k], g[k]));
    assert(g.contains_key(k));
    let a = m[k].props;
    let b = g[k].props;
    let t = m[k].max_tid;
    assert forall|i: int| 0 <= i < a.len() implies (#[trigger] a[i]).tid <= t by {
        assert(a.to_multiset().count(a[i]) > 0);
        assert(b.contains(a[i]));
        let j = choose|j: int| 0 <= j < b.len() && b[j] == a[i];
    }
    let w = choose|j: int| 0 <= j < b.len() && (#[trigger] b[j]).tid == t;
    assert(b.to_multiset().count(b[w]) > 0);
    assert(a.contains(b[w]));
}

/// Flush policy: a `Generic` or `Mmap` call flushes the whole pending queue
/// and leaves only itself pending; every other operation flushes nothing.
pub proof fn lemma_flush_policy(s: BuildState, op: TraceOp)
    ensures
        op is Call && is_flushing_call(op->Call_call_id) ==> step(s, op).flushed == s.flushed
            + s.queue && step(s, op).queue.len() == 1,
        !(op is Call && is_flushing_call(op->Call_call_id)) ==> step(s, op).flushed == s.flushed,
{
}

/// The number of calls and synchronization accesses before the last
/// `Generic` or `Mmap` call of a trace; 0 when it has none.
pub open spec fn singles_before_last_flush(trace: Seq<TraceOp>) -> nat
    decreases trace.len(),
{
    if trace.len() == 0 {
        0
    } else if trace.last() is Call && is_flushing_call(trace.last()->Call_call_id) {
        count_singles(trace.drop_last())
    } else {
        singles_before_last_flush(trace.drop_last())
    }
}

/// Flush points: after any trace, exactly the operations created before its
/// last `Generic` or `Mmap` call have been flushed (in order), and all later
/// ones are still pending; so each such call flushes once and no other
/// operation does.
pub proof fn lemma_flush_points(trace: Seq<TraceOp>)
    requires
        attributable(trace),
        trace.len() <= u64::MAX,
    ensures
        build_state(trace).flushed.len() == singles_before_last_flush(trace),
        build_state(trace).queue.len() == count_singles(trace) - singles_before_last_flush(trace),
    decreases trace.len(),
{
    lemma_build_state_facts(trace);
    if trace.len() > 0 {
        lemma_attributable_prefix(trace);
        lemma_flush_points(trace.drop_last());
        lemma_build_state_facts(trace.drop_last());
        let s0 = build_state(trace.drop_last());
        let op = trace.last();
        if attributes_store(op) {
            assert(attributes_store(trace[trace.len() - 1]));
            let j = choose|j: int| 0 <= j < trace.len() - 1 && #[trigger] creates_single(trace[j]);
            assert(trace.drop_last()[j] == trace[j]);
            assert(s0.queue.len() > 0);
        }
    }
}

} // verus!
