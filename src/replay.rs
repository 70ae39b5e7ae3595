//! Replay operations: folding a linear multithreaded trace into a map keyed by
//! static code location (`access_idx`).
use std::collections::{BTreeMap, VecDeque};
use vstd::prelude::*;
use vstd::std_specs::iter::IteratorSpec;

use crate::trace::{CallID, TraceOp};

verus! {

broadcast use {vstd::std_specs::btree::group_btree_axioms, vstd::seq_lib::group_to_multiset_ensures};

/// A memory store to replay, attributed to some enclosing operation.
#[derive(Debug, Clone, Copy, PartialEq, Eq, Structural)]
pub struct ReplayMemStore {
    pub addr: i32,
    pub size: u32,
    pub value: i64,
}

/// Dynamic properties of a single dynamic replay operation.
#[derive(Debug, Clone)]
pub struct ReplayOpProp {
    pub tid: u64,
    pub return_val: i64,
    pub call_id: CallID,
    pub stores: Vec<ReplayMemStore>,
    /// Global ordinal used to order operations across threads.
    pub sync_id: u64,
}

/// The mathematical value of a [ReplayOpProp].
pub struct PropView {
    pub tid: u64,
    pub return_val: i64,
    pub call_id: CallID,
    pub stores: Seq<ReplayMemStore>,
    pub sync_id: u64,
}

impl View for ReplayOpProp {
    type V = PropView;

    open spec fn view(&self) -> PropView {
        PropView {
            tid: self.tid,
            return_val: self.return_val,
            call_id: self.call_id,
            stores: self.stores@,
            sync_id: self.sync_id,
        }
    }
}

/// A single dynamic replay operation together with its static location.
///
/// `implicit_sync` marks a synthetic operation that stands for a
/// synchronization access rather than an import call.
#[derive(Debug, Clone)]
pub struct ReplayOpSingle {
    pub access_idx: u32,
    pub func_idx: u32,
    pub implicit_sync: bool,
    pub prop: ReplayOpProp,
}

/// The mathematical value of a [ReplayOpSingle].
pub struct SingleView {
    pub access_idx: u32,
    pub func_idx: u32,
    pub implicit_sync: bool,
    pub prop: PropView,
}

impl View for ReplayOpSingle {
    type V = SingleView;

    open spec fn view(&self) -> SingleView {
        SingleView {
            access_idx: self.access_idx,
            func_idx: self.func_idx,
            implicit_sync: self.implicit_sync,
            prop: self.prop@,
        }
    }
}

/// All dynamic operations observed at one static location.
#[derive(Debug, Clone)]
pub struct ReplayOp {
    pub access_idx: u32,
    pub func_idx: u32,
    pub implicit_sync: bool,
    pub props: Vec<ReplayOpProp>,
    /// The largest thread id among `props`.
    pub max_tid: u64,
}

/// The mathematical value of a [ReplayOp].
pub struct OpView {
    pub access_idx: u32,
    pub func_idx: u32,
    pub implicit_sync: bool,
    pub props: Seq<PropView>,
    pub max_tid: u64,
}

pub open spec fn props_view(v: Seq<ReplayOpProp>) -> Seq<PropView> {
    v.map_values(|p: ReplayOpProp| p@)
}

pub open spec fn singles_view(v: Seq<ReplayOpSingle>) -> Seq<SingleView> {
    v.map_values(|s: ReplayOpSingle| s@)
}

impl View for ReplayOp {
    type V = OpView;

    open spec fn view(&self) -> OpView {
        OpView {
            access_idx: self.access_idx,
            func_idx: self.func_idx,
            implicit_sync: self.implicit_sync,
            props: props_view(self.props@),
            max_tid: self.max_tid,
        }
    }
}

/// The value of a replay-operation map, each operation by its view.
pub open spec fn ops_view(m: Map<u32, ReplayOp>) -> Map<u32, OpView> {
    m.map_values(|o: ReplayOp| o@)
}

pub open spec fn max_u64(a: u64, b: u64) -> u64 {
    if a >= b {
        a
    } else {
        b
    }
}

/// Adds one dynamic operation to the map: appended to the operation at its
/// location, or the start of a new one.
pub open spec fn upsert(m: Map<u32, OpView>, s: SingleView) -> Map<u32, OpView> {
    let k = s.access_idx;
    if m.contains_key(k) {
        let o = m[k];
        m.insert(
            k,
            OpView { props: o.props.push(s.prop), max_tid: max_u64(o.max_tid, s.prop.tid), ..o },
        )
    } else {
        m.insert(
            k,
            OpView {
                access_idx: k,
                func_idx: s.func_idx,
                implicit_sync: s.implicit_sync,
                props: seq![s.prop],
                max_tid: s.prop.tid,
            },
        )
    }
}

/// The map `m` after adding each operation of `log` in order.
pub open spec fn group_onto(m: Map<u32, OpView>, log: Seq<SingleView>) -> Map<u32, OpView>
    decreases log.len(),
{
    if log.len() == 0 {
        m
    } else {
        upsert(group_onto(m, log.drop_last()), log.last())
    }
}

/// Calls whose semantics may allocate or write guest memory: they close the
/// span of pending operations that later stores are attributed to.
pub open spec fn is_flushing_call(c: CallID) -> bool {
    c is ScGeneric || c is ScMmap
}

/// Whether a trace operation carries a store to attribute.
pub open spec fn attributes_store(op: TraceOp) -> bool {
    match op {
        TraceOp::Access { differ, .. } => differ,
        TraceOp::SyncAccess { differ, .. } => differ,
        TraceOp::Call { .. } => false,
    }
}

/// Whether a trace operation becomes a dynamic replay operation of its own.
pub open spec fn creates_single(op: TraceOp) -> bool {
    op is Call || op is SyncAccess
}

/// The store that an access carries.
pub open spec fn store_of(op: TraceOp) -> ReplayMemStore {
    match op {
        TraceOp::Access { addr, size, load_value, .. } => ReplayMemStore {
            addr,
            size,
            value: load_value,
        },
        TraceOp::SyncAccess { addr, size, load_value, .. } => ReplayMemStore {
            addr,
            size,
            value: load_value,
        },
        TraceOp::Call { .. } => ReplayMemStore { addr: 0, size: 0, value: 0 },
    }
}

/// Every access that carries a store comes after some operation that it can
/// be attributed to.
pub open spec fn attributable(trace: Seq<TraceOp>) -> bool {
    forall|i: int|
        0 <= i < trace.len() && #[trigger] attributes_store(trace[i]) ==> exists|j: int|
            0 <= j < i && #[trigger] creates_single(trace[j])
}

/// The state of the construction after a prefix of the trace: the pending
/// queue, the operations already flushed (in order) and the last sync id.
pub struct BuildState {
    pub queue: Seq<SingleView>,
    pub flushed: Seq<SingleView>,
    pub count: nat,
}

/// The dynamic operation that a trace operation creates, with sync id `id`.
pub open spec fn single_of(op: TraceOp, id: nat) -> SingleView {
    match op {
        TraceOp::Call { tid, access_idx, func_idx, return_val, call_id, .. } => SingleView {
            access_idx,
            func_idx,
            implicit_sync: false,
            prop: PropView { tid, return_val, call_id, stores: Seq::empty(), sync_id: id as u64 },
        },
        TraceOp::SyncAccess { tid, access_idx, .. } | TraceOp::Access { tid, access_idx, .. } => {
            SingleView {
                access_idx,
                func_idx: u32::MAX,
                implicit_sync: true,
                prop: PropView {
                    tid,
                    return_val: i64::MAX,
                    call_id: CallID::ScUnknown,
                    stores: Seq::empty(),
                    sync_id: id as u64,
                },
            }
        },
    }
}

/// Attaches a store to the front of the pending queue.
pub open spec fn attach(q: Seq<SingleView>, st: ReplayMemStore) -> Seq<SingleView> {
    let f = q[0];
    q.update(0, SingleView { prop: PropView { stores: f.prop.stores.push(st), ..f.prop }, ..f })
}

/// One step of the construction.
pub open spec fn step(s: BuildState, op: TraceOp) -> BuildState {
    let q = if attributes_store(op) {
        attach(s.queue, store_of(op))
    } else {
        s.queue
    };
    if creates_single(op) {
        let flush = op is Call && is_flushing_call(op->Call_call_id);
        let single = single_of(op, s.count + 1);
        if flush {
            BuildState { queue: seq![single], flushed: s.flushed + q, count: s.count + 1 }
        } else {
            BuildState { queue: q.push(single), flushed: s.flushed, count: s.count + 1 }
        }
    } else {
        BuildState { queue: q, ..s }
    }
}

/// The state of the construction after the whole of `trace`.
pub open spec fn build_state(trace: Seq<TraceOp>) -> BuildState
    decreases trace.len(),
{
    if trace.len() == 0 {
        BuildState { queue: Seq::empty(), flushed: Seq::empty(), count: 0 }
    } else {
        step(build_state(trace.drop_last()), trace.last())
    }
}

/// All dynamic operations of a trace, in the order they are flushed.
pub open spec fn replay_log(trace: Seq<TraceOp>) -> Seq<SingleView> {
    let s = build_state(trace);
    s.flushed + s.queue
}

/// The replay-operation map of a trace before the reorder pass.
pub open spec fn grouped_ops(trace: Seq<TraceOp>) -> Map<u32, OpView> {
    group_onto(Map::empty(), replay_log(trace))
}

/// Lexicographic order on `(tid, sync_id)`.
pub open spec fn prop_le(a: PropView, b: PropView) -> bool {
    a.tid < b.tid || (a.tid == b.tid && a.sync_id <= b.sync_id)
}

/// Props in canonical order: non-decreasing by `(tid, sync_id)`.
pub open spec fn canonical(props: Seq<PropView>) -> bool {
    forall|i: int, j: int| 0 <= i < j < props.len() ==> prop_le(#[trigger] props[i], #[trigger] props[j])
}

/// `a` is `b` with its props put in canonical order.
pub open spec fn reordered(a: OpView, b: OpView) -> bool {
    &&& a.access_idx == b.access_idx
    &&& a.func_idx == b.func_idx
    &&& a.implicit_sync == b.implicit_sync
    &&& a.max_tid == b.max_tid
    &&& canonical(a.props)
    &&& a.props.to_multiset() == b.props.to_multiset()
}

/// `a` is `b` with the props of each operation put in canonical order.
pub open spec fn map_reordered(a: Map<u32, OpView>, b: Map<u32, OpView>) -> bool {
    &&& a.dom() == b.dom()
    &&& forall|k: u32| #[trigger] a.contains_key(k) ==> reordered(a[k], b[k])
}

/// The replay-operation map of a trace.
pub open spec fn replay_ops_of(trace: Seq<TraceOp>, m: Map<u32, OpView>) -> bool {
    map_reordered(m, grouped_ops(trace))
}

impl ReplayOp {
    /// The number of memory stores across all props.
    pub fn total_stores(&self) -> (r: usize)
        requires
            total_stores_of(props_view(self.props@)) <= usize::MAX,
        ensures
            r == total_stores_of(props_view(self.props@)),
    {
        let mut total: usize = 0;
        let mut i: usize = 0;
        while i < self.props.len()
            invariant
                i <= self.props.len(),
                total == total_stores_of(props_view(self.props@).take(i as int)),
                total_stores_of(props_view(self.props@)) <= usize::MAX,
            decreases self.props.len() - i,
        {
            proof {
                let pv = props_view(self.props@);
                assert(pv.take(i + 1).drop_last() =~= pv.take(i as int));
                lemma_total_stores_prefix(pv, i + 1);
            }
            total = total + self.props[i].stores.len();
            i = i + 1;
        }
        proof {
            assert(props_view(self.props@).take(i as int) =~= props_view(self.props@));
        }
        total
    }
}

/// The number of stores across `props`.
pub open spec fn total_stores_of(props: Seq<PropView>) -> nat
    decreases props.len(),
{
    if props.len() == 0 {
        0
    } else {
        total_stores_of(props.drop_last()) + props.last().stores.len()
    }
}

proof fn lemma_total_stores_prefix(props: Seq<PropView>, n: int)
    requires
        0 <= n <= props.len(),
    ensures
        total_stores_of(props.take(n)) <= total_stores_of(props),
    decreases props.len(),
{
    if n < props.len() {
        assert(props.drop_last().take(n) =~= props.take(n));
        lemma_total_stores_prefix(props.drop_last(), n);
    } else {
        assert(props.take(n) =~= props);
    }
}

/// Adds one dynamic operation to the map.
fn upsert_single(map: &mut BTreeMap<u32, ReplayOp>, single: ReplayOpSingle)
    ensures
        ops_view(final(map)@) == upsert(ops_view(old(map)@), single@),
{
    let k = single.access_idx;
    let ghost old_view = ops_view(map@);
    match map.remove(&k) {
        Some(mut op) => {
            if single.prop.tid > op.max_tid {
                op.max_tid = single.prop.tid;
            }
            op.props.push(single.prop);
            proof {
                assert(props_view(op.props@) =~= old_view[k].props.push(single@.prop));
            }
            map.insert(k, op);
        },
        None => {
            let tid = single.prop.tid;
            let mut props: Vec<ReplayOpProp> = Vec::new();
            props.push(single.prop);
            proof {
                assert(props_view(props@) =~= seq![single@.prop]);
            }
            map.insert(
                k,
                ReplayOp {
                    access_idx: k,
                    func_idx: single.func_idx,
                    implicit_sync: single.implicit_sync,
                    props,
                    max_tid: tid,
                },
            );
        },
    }
    proof {
        assert(ops_view(map@) =~= upsert(old_view, single@));
    }
}

/// Flushes the pending queue into the map, in FIFO order.
fn append_vecd_to_map(map: &mut BTreeMap<u32, ReplayOp>, vecd: &mut VecDeque<ReplayOpSingle>)
    ensures
        ops_view(final(map)@) == group_onto(ops_view(old(map)@), singles_view(old(vecd)@)),
        final(vecd)@.len() == 0,
{
    let ghost m0 = ops_view(map@);
    let ghost q0 = singles_view(vecd@);
    let ghost mut k: int = 0;
    while vecd.len() > 0
        invariant
            0 <= k <= q0.len(),
            vecd@.len() + k == q0.len(),
            singles_view(vecd@) == q0.skip(k),
            ops_view(map@) == group_onto(m0, q0.take(k)),
        decreases vecd@.len(),
    {
        let ghost before = vecd@;
        let single = vecd.pop_front().unwrap();
        proof {
            assert(singles_view(before)[0] == q0.skip(k)[0]);
            assert(single@ == q0[k]);
            assert(q0.take(k + 1).drop_last() =~= q0.take(k));
            assert(vecd@ =~= before.drop_first());
            assert forall|i: int| 0 <= i < vecd@.len() implies singles_view(vecd@)[i] == q0.skip(
                k + 1,
            )[i] by {
                assert(singles_view(before)[i + 1] == q0.skip(k)[i + 1]);
            }
            assert(singles_view(vecd@) =~= q0.skip(k + 1));
        }
        upsert_single(map, single);
        proof {
            k = k + 1;
        }
    }
    proof {
        assert(q0.take(k) =~= q0);
    }
}

/// Adding `a` then `b` is adding `a + b`.
pub proof fn lemma_group_onto_concat(m: Map<u32, OpView>, a: Seq<SingleView>, b: Seq<SingleView>)
    ensures
        group_onto(group_onto(m, a), b) == group_onto(m, a + b),
    decreases b.len(),
{
    if b.len() == 0 {
        assert(a + b =~= a);
    } else {
        lemma_group_onto_concat(m, a, b.drop_last());
        assert((a + b).drop_last() =~= a + b.drop_last());
    }
}

/// Executable form of [prop_le].
fn prop_le_exec(a: &ReplayOpProp, b: &ReplayOpProp) -> (r: bool)
    ensures
        r == prop_le(a@, b@),
{
    a.tid < b.tid || (a.tid == b.tid && a.sync_id <= b.sync_id)
}

/// Merges two canonically ordered prop vectors into one.
fn merge_props(a: Vec<ReplayOpProp>, b: Vec<ReplayOpProp>) -> (r: Vec<ReplayOpProp>)
    requires
        canonical(props_view(a@)),
        canonical(props_view(b@)),
    ensures
        canonical(props_view(r@)),
        props_view(r@).to_multiset() == props_view(a@).to_multiset().add(
            props_view(b@).to_multiset(),
        ),
{
    let ghost total = props_view(a@).to_multiset().add(props_view(b@).to_multiset());
    let mut a = a;
    let mut b = b;
    // Largest first, taken from the backs.
    let mut rev: Vec<ReplayOpProp> = Vec::new();
    proof {
        assert(props_view(rev@) =~= Seq::empty());
    }
    while a.len() > 0 || b.len() > 0
        invariant
            canonical(props_view(a@)),
            canonical(props_view(b@)),
            forall|i: int, j: int|
                0 <= i < j < rev@.len() ==> prop_le(#[trigger] props_view(rev@)[j], #[trigger] props_view(rev@)[i]),
            forall|i: int, j: int|
                0 <= i < a@.len() && 0 <= j < rev@.len() ==> prop_le(#[trigger] props_view(a@)[i], #[trigger] props_view(rev@)[j]),
            forall|i: int, j: int|
                0 <= i < b@.len() && 0 <= j < rev@.len() ==> prop_le(#[trigger] props_view(b@)[i], #[trigger] props_view(rev@)[j]),
            props_view(rev@).to_multiset().add(props_view(a@).to_multiset()).add(
                props_view(b@).to_multiset(),
            ) == total,
        decreases a.len() + b.len(),
    {
        let take_a = if a.len() == 0 {
            false
        } else if b.len() == 0 {
            true
        } else {
            !prop_le_exec(&a[a.len() - 1], &b[b.len() - 1])
        };
        let ghost a0 = props_view(a@);
        let ghost b0 = props_view(b@);
        let ghost r0 = props_view(rev@);
        let x = if take_a {
            a.pop().unwrap()
        } else {
            b.pop().unwrap()
        };
        rev.push(x);
        proof {
            let av = props_view(a@);
            let bv = props_view(b@);
            let rv = props_view(rev@);
            assert(rv =~= r0.push(x@));
            if take_a {
                assert(a0 =~= av.push(x@));
                assert(bv =~= b0);
                assert forall|i: int, j: int| 0 <= i < j < av.len() implies prop_le(
                    #[trigger] av[i],
                    #[trigger] av[j],
                ) by {
                    assert(av[i] == a0[i] && av[j] == a0[j]);
                }
                assert forall|i: int| 0 <= i < bv.len() implies prop_le(#[trigger] bv[i], x@) by {
                    assert(prop_le(bv[i], bv[bv.len() - 1]) || i == bv.len() - 1);
                }
                assert forall|i: int| 0 <= i < av.len() implies prop_le(#[trigger] av[i], x@) by {
                    assert(a0[i] == av[i]);
                    assert(prop_le(a0[i], a0[a0.len() - 1]));
                }
            } else {
                assert(b0 =~= bv.push(x@));
                assert(av =~= a0);
                assert forall|i: int, j: int| 0 <= i < j < bv.len() implies prop_le(
                    #[trigger] bv[i],
                    #[trigger] bv[j],
                ) by {
                    assert(bv[i] == b0[i] && bv[j] == b0[j]);
                }
                assert forall|i: int| 0 <= i < av.len() implies prop_le(#[trigger] av[i], x@) by {
                    assert(prop_le(av[i], av[av.len() - 1]) || i == av.len() - 1);
                }
                assert forall|i: int| 0 <= i < bv.len() implies prop_le(#[trigger] bv[i], x@) by {
                    assert(b0[i] == bv[i]);
                    assert(prop_le(b0[i], b0[b0.len() - 1]));
                }
            }
            assert forall|i: int, j: int| 0 <= i < j < rv.len() implies prop_le(
                #[trigger] rv[j],
                #[trigger] rv[i],
            ) by {
                if j == rv.len() - 1 {
                    if take_a {
                        assert(prop_le(a0[a0.len() - 1], r0[i]));
                    } else {
                        assert(prop_le(b0[b0.len() - 1], r0[i]));
                    }
                } else {
                    assert(rv[i] == r0[i] && rv[j] == r0[j]);
                }
            }
            assert forall|i: int, j: int| 0 <= i < av.len() && 0 <= j < rv.len() implies prop_le(
                #[trigger] av[i],
                #[trigger] rv[j],
            ) by {
                if j < rv.len() - 1 {
                    assert(rv[j] == r0[j]);
                    if take_a {
                        assert(av[i] == a0[i]);
                    } else {
                        assert(av[i] == a0[i]);
                    }
                }
            }
            assert forall|i: int, j: int| 0 <= i < bv.len() && 0 <= j < rv.len() implies prop_le(
                #[trigger] bv[i],
                #[trigger] rv[j],
            ) by {
                if j < rv.len() - 1 {
                    assert(rv[j] == r0[j]);
                    assert(bv[i] == b0[i]);
                }
            }
            assert(rv.to_multiset().add(av.to_multiset()).add(bv.to_multiset()) =~= total);
        }
    }
    let ghost rv0 = props_view(rev@);
    let mut out: Vec<ReplayOpProp> = Vec::new();
    proof {
        assert(props_view(a@) =~= Seq::empty());
        assert(props_view(b@) =~= Seq::empty());
        assert(props_view(out@) =~= Seq::empty());
    }
    while rev.len() > 0
        invariant
            rev@.len() + out@.len() == rv0.len(),
            props_view(rev@) == rv0.take(rev@.len() as int),
            forall|i: int| 0 <= i < out@.len() ==> #[trigger] props_view(out@)[i] == rv0[rv0.len() - 1 - i],
            forall|i: int, j: int|
                0 <= i < j < rv0.len() ==> prop_le(#[trigger] rv0[j], #[trigger] rv0[i]),
            props_view(out@).to_multiset().add(props_view(rev@).to_multiset()) == total,
        decreases rev.len(),
    {
        let ghost r0 = props_view(rev@);
        let ghost o0 = props_view(out@);
        let x = rev.pop().unwrap();
        out.push(x);
        proof {
            assert(r0 =~= props_view(rev@).push(x@));
            assert(props_view(out@) =~= o0.push(x@));
            assert(r0[r0.len() - 1] == x@);
            assert(r0 == rv0.take(r0.len() as int));
            assert(rv0.take(r0.len() as int)[r0.len() - 1] == rv0[r0.len() - 1]);
            assert(x@ == rv0[r0.len() - 1]);
            assert forall|i: int| 0 <= i < out@.len() implies #[trigger] props_view(out@)[i]
                == rv0[rv0.len() - 1 - i] by {
                if i < o0.len() {
                    assert(props_view(out@)[i] == o0[i]);
                }
            }
            assert(props_view(rev@) =~= rv0.take(rev@.len() as int));
            assert(props_view(out@).to_multiset().add(props_view(rev@).to_multiset()) =~= total);
        }
    }
    proof {
        let ov = props_view(out@);
        assert forall|i: int, j: int| 0 <= i < j < ov.len() implies prop_le(#[trigger] ov[i], #[trigger] ov[j]) by {
            assert(ov[i] == rv0[rv0.len() - 1 - i]);
            assert(ov[j] == rv0[rv0.len() - 1 - j]);
        }
        assert(props_view(rev@) =~= Seq::empty());
        assert(ov.to_multiset() =~= total);
    }
    out
}

/// Sorts props by `(tid, sync_id)`, keeping each of them.
fn sort_props(props: Vec<ReplayOpProp>) -> (r: Vec<ReplayOpProp>)
    ensures
        canonical(props_view(r@)),
        props_view(r@).to_multiset() == props_view(props@).to_multiset(),
    decreases props@.len(),
{
    if props.len() <= 1 {
        return props;
    }
    let mut left = props;
    let ghost all = props_view(left@);
    let mid = left.len() / 2;
    let right = left.split_off(mid);
    proof {
        assert(all =~= props_view(left@) + props_view(right@));
        vstd::seq_lib::lemma_multiset_commutative(props_view(left@), props_view(right@));
    }
    let a = sort_props(left);
    let b = sort_props(right);
    merge_props(a, b)
}

/// Puts the props of each operation in ascending order of thread id, then of
/// sync id: the order in which per-thread replay code is emitted.
pub fn reorder_replay_ops(replay_ops: &mut BTreeMap<u32, ReplayOp>)
    ensures
        map_reordered(ops_view(final(replay_ops)@), ops_view(old(replay_ops)@)),
{
    let ghost orig = ops_view(replay_ops@);
    let mut keys: Vec<u32> = Vec::new();
    let ghost ks = vstd::std_specs::btree::spec_keys_iter(replay_ops).remaining();
    proof {
        assert(vstd::laws_cmp::obeys_cmp::<u32>());
        assert(vstd::std_specs::btree::key_obeys_cmp_spec::<u32>());
    }
    for k in it: replay_ops.keys()
        invariant
            it.seq() == ks,
            keys@ == it.seq().take(it.index() as int).map_values(|k: &u32| *k),
    {
        keys.push(*k);
    }
    proof {
        assert(keys@ =~= ks.map_values(|k: &u32| *k));
        assert(ks.unref().to_set() == orig.dom());
        assert(keys@ =~= ks.unref());
        assert(keys@.no_duplicates());
    }
    let mut t: usize = 0;
    while t < keys.len()
        invariant
            t <= keys.len(),
            keys@.to_set() == orig.dom(),
            keys@.no_duplicates(),
            ops_view(replay_ops@).dom() == orig.dom(),
            forall|u: int| 0 <= u < t ==> reordered(ops_view(replay_ops@)[#[trigger] keys@[u]], orig[keys@[u]]),
            forall|k: u32| #[trigger] orig.contains_key(k) && !keys@.take(t as int).contains(k) ==> ops_view(replay_ops@)[k] == orig[k],
        decreases keys.len() - t,
    {
        let k = keys[t];
        proof {
            assert(keys@.to_set().contains(k));
            assert(!keys@.take(t as int).contains(k));
        }
        let ReplayOp { access_idx, func_idx, implicit_sync, props, max_tid } = replay_ops.remove(
            &k,
        ).unwrap();
        let props = sort_props(props);
        replay_ops.insert(k, ReplayOp { access_idx, func_idx, implicit_sync, props, max_tid });
        proof {
            assert(keys@.take(t + 1) =~= keys@.take(t as int).push(k));
            assert forall|u: int| 0 <= u < t + 1 implies reordered(ops_view(replay_ops@)[#[trigger] keys@[u]], orig[keys@[u]]) by {
                if u < t {
                    assert(keys@[u] != k);
                }
            }
            assert forall|k2: u32| #[trigger] orig.contains_key(k2) && !keys@.take(t + 1).contains(k2) implies ops_view(replay_ops@)[k2] == orig[k2] by {
                assert(keys@.take(t + 1)[t as int] == k);
                assert(k2 != k);
                assert(!keys@.take(t as int).contains(k2));
            }
        }
        t = t + 1;
    }
    proof {
        assert forall|k: u32| #[trigger] ops_view(replay_ops@).contains_key(k) implies reordered(ops_view(replay_ops@)[k], orig[k]) by {
            assert(keys@.to_set().contains(k));
            let u = keys@.index_of(k);
        }
    }
}

/// Whether every access that carries a store can be attributed to an earlier
/// operation; [construct_replay_ops] asks this of its trace.
pub fn has_attribution_context(trace: &Vec<TraceOp>) -> (r: bool)
    ensures
        r == attributable(trace@),
{
    let mut seen = false;
    let mut i: usize = 0;
    while i < trace.len()
        invariant
            i <= trace.len(),
            seen <==> exists|j: int| 0 <= j < i && #[trigger] creates_single(trace@[j]),
            forall|t: int|
                0 <= t < i && #[trigger] attributes_store(trace@[t]) ==> exists|j: int|
                    0 <= j < t && #[trigger] creates_single(trace@[j]),
        decreases trace.len() - i,
    {
        let op = trace[i];
        let attributes = match op {
            TraceOp::Access { differ, .. } => differ,
            TraceOp::SyncAccess { differ, .. } => differ,
            TraceOp::Call { .. } => false,
        };
        if attributes && !seen {
            proof {
                assert(attributes_store(trace@[i as int]));
                assert(!(exists|j: int| 0 <= j < i && #[trigger] creates_single(trace@[j])));
            }
            return false;
        }
        let creates = match op {
            TraceOp::Access { .. } => false,
            _ => true,
        };
        if creates {
            seen = true;
        }
        proof {
            if creates {
                assert(creates_single(trace@[i as int]));
            }
        }
        i = i + 1;
    }
    true
}

/// Folds a trace into replay operations keyed by static location.
///
/// Every call becomes one dynamic operation; so does every synchronization
/// access (a synthetic one, `implicit_sync`). Each gets the next sync id.
/// A store carried by an access goes to the front of the pending queue; a
/// `Generic` or `Mmap` call flushes the queue into the map first. Finally the
/// props at each location are put in `(tid, sync_id)` order.
pub fn construct_replay_ops(trace: &Vec<TraceOp>) -> (r: BTreeMap<u32, ReplayOp>)
    requires
        attributable(trace@),
    ensures
        replay_ops_of(trace@, ops_view(r@)),
{
    let mut replay: BTreeMap<u32, ReplayOp> = BTreeMap::new();
    let mut queued: VecDeque<ReplayOpSingle> = VecDeque::new();
    let mut sync_id_global: u64 = 0;
    let mut i: usize = 0;
    proof {
        assert(trace@.take(0) =~= Seq::<TraceOp>::empty());
        assert(ops_view(replay@) =~= Map::empty());
        assert(singles_view(queued@) =~= Seq::empty());
    }
    while i < trace.len()
        invariant
            i <= trace.len(),
            attributable(trace@),
            build_state(trace@.take(i as int)).queue == singles_view(queued@),
            ops_view(replay@) == group_onto(Map::empty(), build_state(trace@.take(i as int)).flushed),
            sync_id_global as nat == build_state(trace@.take(i as int)).count,
            sync_id_global <= i,
            queued@.len() > 0 || forall|j: int| 0 <= j < i ==> !#[trigger] creates_single(trace@[j]),
        decreases trace.len() - i,
    {
        let op = trace[i];
        let ghost s0 = build_state(trace@.take(i as int));
        proof {
            assert(trace@.take(i + 1).drop_last() =~= trace@.take(i as int));
            assert(build_state(trace@.take(i + 1)) == step(s0, op));
        }
        let store = match op {
            TraceOp::Access { addr, size, load_value, differ, .. } => if differ {
                Some(ReplayMemStore { addr, size, value: load_value })
            } else {
                None
            },
            TraceOp::SyncAccess { addr, size, load_value, differ, .. } => if differ {
                Some(ReplayMemStore { addr, size, value: load_value })
            } else {
                None
            },
            TraceOp::Call { .. } => None,
        };
        // Stores go to the chronologically earliest pending operation.
        if let Some(st) = store {
            proof {
                assert(attributes_store(trace@[i as int]));
            }
            let mut front = queued.pop_front().unwrap();
            front.prop.stores.push(st);
            queued.push_front(front);
            proof {
                assert(singles_view(queued@) =~= attach(s0.queue, store_of(op)));
            }
        }
        let ghost q1 = singles_view(queued@);
        match op {
            TraceOp::Call { tid, access_idx, func_idx, return_val, call_id, .. } => {
                let flush = match call_id {
                    CallID::ScGeneric => true,
                    CallID::ScMmap { .. } => true,
                    _ => false,
                };
                if flush {
                    append_vecd_to_map(&mut replay, &mut queued);
                    proof {
                        lemma_group_onto_concat(Map::empty(), s0.flushed, q1);
                        assert(singles_view(queued@) =~= Seq::empty());
                    }
                }
                sync_id_global = sync_id_global + 1;
                queued.push_back(
                    ReplayOpSingle {
                        access_idx,
                        func_idx,
                        implicit_sync: false,
                        prop: ReplayOpProp {
                            tid,
                            return_val,
                            call_id,
                            stores: Vec::new(),
                            sync_id: sync_id_global,
                        },
                    },
                );
            },
            TraceOp::SyncAccess { tid, access_idx, .. } => {
                sync_id_global = sync_id_global + 1;
                queued.push_back(
                    ReplayOpSingle {
                        access_idx,
                        func_idx: u32::MAX,
                        implicit_sync: true,
                        prop: ReplayOpProp {
                            tid,
                            return_val: i64::MAX,
                            call_id: CallID::ScUnknown,
                            stores: Vec::new(),
                            sync_id: sync_id_global,
                        },
                    },
                );
            },
            TraceOp::Access { .. } => {},
        }
        proof {
            let s1 = build_state(trace@.take(i + 1));
            assert(singles_view(queued@) =~= s1.queue);
        }
        i = i + 1;
    }
    proof {
        assert(trace@.take(i as int) =~= trace@);
        lemma_group_onto_concat(Map::empty(), build_state(trace@).flushed, build_state(trace@).queue);
    }
    append_vecd_to_map(&mut replay, &mut queued);
    reorder_replay_ops(&mut replay);
    replay
}

} // verus!
