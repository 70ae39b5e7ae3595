use std::collections::BTreeMap;

use wasm_r3::replay::{construct_replay_ops, has_attribution_context, reorder_replay_ops, ReplayMemStore, ReplayOp, ReplayOpProp};
use wasm_r3::trace::{CallID, TraceOp};

fn call(tid: u64, access_idx: u32, call_id: CallID, return_val: i64) -> TraceOp {
    TraceOp::Call { tid, access_idx, opcode: 0x10, func_idx: 3, return_val, call_id }
}

fn access(tid: u64, access_idx: u32, differ: bool, addr: i32, size: u32, value: i64) -> TraceOp {
    TraceOp::Access {
        tid,
        access_idx,
        opcode: 0x36,
        addr,
        size,
        load_value: value,
        expected_value: 0,
        differ,
    }
}

fn sync_access(tid: u64, access_idx: u32, differ: bool, addr: i32, value: i64) -> TraceOp {
    TraceOp::SyncAccess {
        tid,
        access_idx,
        opcode: 0xfe,
        addr,
        size: 4,
        load_value: value,
        expected_value: 0,
        differ,
    }
}

fn store(addr: i32, size: u32, value: i64) -> ReplayMemStore {
    ReplayMemStore { addr, size, value }
}

#[test]
fn single_mmap_call() {
    let trace = vec![call(1, 10, CallID::ScMmap { grow: 4 }, 0x1000)];
    let ops = construct_replay_ops(&trace);
    assert_eq!(ops.len(), 1);
    let op = &ops[&10];
    assert_eq!(op.access_idx, 10);
    assert_eq!(op.props.len(), 1);
    assert!(op.props[0].stores.is_empty());
    assert_eq!(op.props[0].sync_id, 1);
    assert_eq!(op.props[0].return_val, 0x1000);
    assert_eq!(op.max_tid, 1);
    assert!(!op.implicit_sync);
}

#[test]
fn store_attaches_to_mmap() {
    let trace = vec![
        call(1, 10, CallID::ScMmap { grow: 4 }, 0x1000),
        access(1, 11, true, 0x1000, 4, 0xdead),
    ];
    let ops = construct_replay_ops(&trace);
    assert_eq!(ops.len(), 1);
    assert_eq!(ops[&10].props[0].stores, vec![store(0x1000, 4, 0xdead)]);
    assert!(!ops.contains_key(&11));
}

#[test]
fn mmap_flushes_before_store_arrives() {
    let trace = vec![
        call(1, 10, CallID::ScWritev { fd: 1, iov: 0x500, iovcnt: 1 }, 8),
        call(1, 11, CallID::ScMmap { grow: 1 }, 0x2000),
        access(1, 12, true, 0x2000, 1, 7),
    ];
    let ops = construct_replay_ops(&trace);
    assert_eq!(ops.keys().copied().collect::<Vec<u32>>(), vec![10, 11]);
    assert!(ops[&10].props[0].stores.is_empty());
    assert_eq!(ops[&11].props[0].stores, vec![store(0x2000, 1, 7)]);
}

#[test]
fn store_before_flush_goes_to_writev() {
    let trace = vec![
        call(1, 10, CallID::ScWritev { fd: 1, iov: 0x500, iovcnt: 1 }, 8),
        access(1, 12, true, 0x2000, 1, 7),
        call(1, 11, CallID::ScMmap { grow: 1 }, 0x2000),
    ];
    let ops = construct_replay_ops(&trace);
    assert_eq!(ops[&10].props[0].stores, vec![store(0x2000, 1, 7)]);
    assert!(ops[&11].props[0].stores.is_empty());
}

#[test]
fn two_threads_reordered() {
    let trace = vec![call(2, 10, CallID::ScGeneric, 1), call(1, 10, CallID::ScGeneric, 2)];
    let ops = construct_replay_ops(&trace);
    assert_eq!(ops.len(), 1);
    let op = &ops[&10];
    let order: Vec<(u64, u64)> = op.props.iter().map(|p| (p.tid, p.sync_id)).collect();
    assert_eq!(order, vec![(1, 2), (2, 1)]);
    assert_eq!(op.props[0].return_val, 2);
    assert_eq!(op.max_tid, 2);
}

#[test]
fn sync_access_makes_implicit_op() {
    let trace = vec![
        call(1, 10, CallID::ScFutex { addr: 0x40, op: wasm_r3::trace::FutexOp::Wait, val: 0 }, 0),
        sync_access(1, 20, false, 0x40, 5),
    ];
    let ops = construct_replay_ops(&trace);
    assert_eq!(ops.len(), 2);
    let op = &ops[&20];
    assert!(op.implicit_sync);
    assert_eq!(op.func_idx, u32::MAX);
    assert_eq!(op.props[0].call_id, CallID::ScUnknown);
    assert_eq!(op.props[0].return_val, i64::MAX);
    assert_eq!(op.props[0].sync_id, 2);
    assert!(op.props[0].stores.is_empty());
    assert!(ops[&10].props[0].stores.is_empty());
}

#[test]
fn sync_access_does_not_flush() {
    let trace = vec![
        call(1, 10, CallID::ScWritev { fd: 1, iov: 0, iovcnt: 0 }, 0),
        sync_access(1, 20, true, 0x40, 5),
        access(1, 21, true, 0x44, 4, 6),
    ];
    let ops = construct_replay_ops(&trace);
    assert_eq!(ops[&10].props[0].stores, vec![store(0x40, 4, 5), store(0x44, 4, 6)]);
    assert!(ops[&20].props[0].stores.is_empty());
}

#[test]
fn unchanged_access_is_ignored() {
    let trace = vec![call(1, 10, CallID::ScGeneric, 0), access(1, 11, false, 0x10, 4, 1)];
    let ops = construct_replay_ops(&trace);
    assert!(ops[&10].props[0].stores.is_empty());
}

#[test]
fn sync_ids_cover_all_props() {
    let trace = vec![
        call(1, 10, CallID::ScGeneric, 0),
        sync_access(2, 20, false, 0x40, 5),
        call(2, 10, CallID::ScProcExit { status: 0 }, 0),
        call(3, 30, CallID::ScMmap { grow: 2 }, 0x3000),
        sync_access(1, 20, false, 0x40, 6),
    ];
    let ops = construct_replay_ops(&trace);
    let mut ids: Vec<u64> = ops.values().flat_map(|o| o.props.iter().map(|p| p.sync_id)).collect();
    ids.sort();
    assert_eq!(ids, vec![1, 2, 3, 4, 5]);
    for op in ops.values() {
        let keys: Vec<(u64, u64)> = op.props.iter().map(|p| (p.tid, p.sync_id)).collect();
        let mut sorted = keys.clone();
        sorted.sort();
        assert_eq!(keys, sorted);
        assert_eq!(op.max_tid, op.props.iter().map(|p| p.tid).max().unwrap());
    }
    assert_eq!(ops[&20].max_tid, 2);
}

#[test]
fn empty_trace_gives_empty_map() {
    let ops = construct_replay_ops(&vec![]);
    assert!(ops.is_empty());
}

#[test]
fn attribution_context_detected() {
    assert!(!has_attribution_context(&vec![access(1, 11, true, 0, 4, 1)]));
    assert!(!has_attribution_context(&vec![sync_access(1, 11, true, 0, 1)]));
    assert!(has_attribution_context(&vec![sync_access(1, 11, false, 0, 1), access(1, 12, true, 0, 4, 1)]));
    assert!(has_attribution_context(&vec![access(1, 11, false, 0, 4, 1)]));
}

#[test]
fn reorder_sorts_by_tid_then_sync_id() {
    let prop = |tid: u64, sync_id: u64| ReplayOpProp {
        tid,
        return_val: 0,
        call_id: CallID::ScGeneric,
        stores: vec![],
        sync_id,
    };
    let mut map: BTreeMap<u32, ReplayOp> = BTreeMap::new();
    map.insert(
        5,
        ReplayOp {
            access_idx: 5,
            func_idx: 1,
            implicit_sync: false,
            props: vec![prop(3, 1), prop(1, 7), prop(3, 0), prop(1, 2)],
            max_tid: 3,
        },
    );
    reorder_replay_ops(&mut map);
    let order: Vec<(u64, u64)> = map[&5].props.iter().map(|p| (p.tid, p.sync_id)).collect();
    assert_eq!(order, vec![(1, 2), (1, 7), (3, 0), (3, 1)]);
}

#[test]
fn total_stores_counts_all_props() {
    let trace = vec![
        call(1, 10, CallID::ScGeneric, 0),
        access(1, 11, true, 0x10, 4, 1),
        access(1, 12, true, 0x14, 4, 2),
        call(1, 10, CallID::ScGeneric, 0),
        access(1, 11, true, 0x10, 4, 3),
    ];
    let ops = construct_replay_ops(&trace);
    assert_eq!(ops[&10].total_stores(), 3);
}

#[test]
fn only_generic_and_mmap_flush() {
    let trace = vec![
        call(1, 10, CallID::ScWritev { fd: 1, iov: 0, iovcnt: 0 }, 0),
        call(1, 11, CallID::ScThreadSpawn { fn_ptr: 1, args_ptr: 2 }, 2),
        call(2, 13, CallID::ScFutex { addr: 8, op: wasm_r3::trace::FutexOp::Wake, val: 1 }, 0),
        access(1, 20, true, 0x10, 4, 1),
        call(1, 12, CallID::ScGeneric, 0),
        access(1, 21, true, 0x20, 4, 2),
        call(1, 14, CallID::ScThreadExit { status: 0 }, 0),
        access(1, 22, true, 0x30, 4, 3),
    ];
    let ops = construct_replay_ops(&trace);
    assert_eq!(ops[&10].props[0].stores, vec![store(0x10, 4, 1)]);
    assert!(ops[&11].props[0].stores.is_empty());
    assert!(ops[&13].props[0].stores.is_empty());
    assert_eq!(ops[&12].props[0].stores, vec![store(0x20, 4, 2), store(0x30, 4, 3)]);
    assert!(ops[&14].props[0].stores.is_empty());
    let ids: Vec<u64> = [10u32, 11, 13, 12, 14].iter().map(|k| ops[k].props[0].sync_id).collect();
    assert_eq!(ids, vec![1, 2, 3, 4, 5]);
}

#[test]
fn max_tid_over_many_threads() {
    let trace = vec![
        call(4, 10, CallID::ScGeneric, 0),
        call(9, 10, CallID::ScGeneric, 0),
        call(2, 10, CallID::ScGeneric, 0),
        call(9, 10, CallID::ScGeneric, 0),
    ];
    let ops = construct_replay_ops(&trace);
    let op = &ops[&10];
    assert_eq!(op.max_tid, 9);
    let order: Vec<(u64, u64)> = op.props.iter().map(|p| (p.tid, p.sync_id)).collect();
    assert_eq!(order, vec![(2, 3), (4, 1), (9, 2), (9, 4)]);
}

#[test]
fn many_props_sorted() {
    let mut trace = Vec::new();
    for i in 0..2000u64 {
        trace.push(call((i * 7919) % 13, 10, CallID::ScGeneric, i as i64));
    }
    let ops = construct_replay_ops(&trace);
    let op = &ops[&10];
    assert_eq!(op.props.len(), 2000);
    for w in op.props.windows(2) {
        assert!((w[0].tid, w[0].sync_id) < (w[1].tid, w[1].sync_id));
    }
    assert_eq!(op.max_tid, 12);
}
