use wasm_r3::trace::{sort_log_infos, CallID, FutexOp, ReplayPropLogInfo, TraceOp};

fn info(sync_id: u64, call_id: CallID, return_val: i64) -> ReplayPropLogInfo {
    ReplayPropLogInfo { access_idx: 1234, func_idx: 7, tid: 2, prop_idx: 0, call_id, return_val, sync_id }
}

fn expected_line(i: &ReplayPropLogInfo) -> String {
    format!(
        "[{:>8}] -- [{:>3}|{:>8}/{:>6}] | [({:>5}) {:?} = {:#16X}]",
        i.sync_id, i.tid, i.access_idx, i.prop_idx, i.func_idx, i.call_id, i.return_val
    )
}

#[test]
fn header_columns() {
    let expected = format!(
        "[{:>8}] -- [{:>3}|{:>8}/{:>6}] | [({:>5}) {} = {:>18}]",
        "Sync ID", "TID", "Acc#", "Prop#", "Func#", "CallID", "Return Value"
    );
    assert_eq!(ReplayPropLogInfo::debug_string_header(), expected);
}

#[test]
fn log_line_columns() {
    let cases = vec![
        info(1, CallID::ScMmap { grow: 4 }, 0x1000),
        info(123456789, CallID::ScGeneric, -1),
        info(0, CallID::ScUnknown, i64::MAX),
        info(42, CallID::ScWritev { fd: -1, iov: i32::MIN, iovcnt: u32::MAX }, 0),
        info(7, CallID::ScThreadSpawn { fn_ptr: 3, args_ptr: 0 }, i64::MIN),
        info(8, CallID::ScFutex { addr: 64, op: FutexOp::Wake, val: 1 }, 0xABCDEF),
        info(9, CallID::ScFutex { addr: 64, op: FutexOp::Unknown, val: 1 }, 5),
        info(10, CallID::ScThreadExit { status: -3 }, 5),
        info(u64::MAX, CallID::ScProcExit { status: 0 }, 5),
    ];
    for i in &cases {
        assert_eq!(i.to_debug_string(), expected_line(i));
    }
}

#[test]
fn log_line_exact() {
    let i = info(3, CallID::ScMmap { grow: 4 }, 0x1000);
    assert_eq!(
        i.to_debug_string(),
        "[       3] -- [  2|    1234/     0] | [(    7) ScMmap { grow: 4 } =           0x1000]"
    );
}

#[test]
fn log_infos_sorted_by_sync_id() {
    let infos = vec![
        info(5, CallID::ScGeneric, 0),
        info(2, CallID::ScGeneric, 1),
        info(9, CallID::ScGeneric, 2),
        info(2, CallID::ScUnknown, 3),
        info(1, CallID::ScGeneric, 4),
    ];
    let sorted = sort_log_infos(infos);
    let ids: Vec<u64> = sorted.iter().map(|i| i.sync_id).collect();
    assert_eq!(ids, vec![1, 2, 2, 5, 9]);
    let mut vals: Vec<i64> = sorted.iter().map(|i| i.return_val).collect();
    vals.sort();
    assert_eq!(vals, vec![0, 1, 2, 3, 4]);
}

fn expected_op_line(op: &TraceOp) -> String {
    match op {
        TraceOp::Access { tid, access_idx, opcode, addr, size, load_value, expected_value, differ }
        | TraceOp::SyncAccess { tid, access_idx, opcode, addr, size, load_value, expected_value, differ } => {
            let kind = match (op, differ) {
                (TraceOp::SyncAccess { .. }, _) => "SyncAccess",
                (_, true) => "Access",
                (_, false) => "UCAccess",
            };
            format!(
                "{:>10} [{:>6}::{:>6} | {:#04X}] for Addr [{:6}::{}] with Read [{:#0w$X}] ==/== [{:#0w$X}]",
                kind,
                tid,
                access_idx,
                opcode,
                addr,
                size,
                load_value,
                expected_value,
                w = (*size as usize * 2) + 2
            )
        }
        TraceOp::Call { tid, access_idx, opcode, func_idx, return_val, call_id } => format!(
            "{:>10} [{:>6}::{:>6} | {:#04X}] for [{:?} | {:3}] with Return [{:#X}]",
            "Call", tid, access_idx, opcode, call_id, func_idx, return_val
        ),
    }
}

#[test]
fn trace_op_lines() {
    let ops = vec![
        TraceOp::Access { tid: 1, access_idx: 22, opcode: 0x36, addr: 4096, size: 4, load_value: 0xdead, expected_value: 0, differ: true },
        TraceOp::Access { tid: 1, access_idx: 22, opcode: 0x36, addr: -5, size: 1, load_value: -1, expected_value: 3, differ: false },
        TraceOp::SyncAccess { tid: 1234567, access_idx: 9, opcode: -2, addr: 0, size: 8, load_value: 1, expected_value: i64::MIN, differ: false },
        TraceOp::Call { tid: 2, access_idx: 10, opcode: 0x10, func_idx: 5, return_val: 0x1000, call_id: CallID::ScMmap { grow: 4 } },
        TraceOp::Call { tid: 0, access_idx: 0, opcode: 0x11, func_idx: 1234, return_val: -1, call_id: CallID::ScGeneric },
    ];
    for op in &ops {
        assert_eq!(op.to_display_string(), expected_op_line(op));
    }
}

#[test]
fn trace_op_line_exact() {
    let op = TraceOp::Call { tid: 2, access_idx: 10, opcode: 0x10, func_idx: 5, return_val: 0x1000, call_id: CallID::ScGeneric };
    assert_eq!(op.to_display_string(), "      Call [     2::    10 | 0x10] for [ScGeneric |   5] with Return [0x1000]");
}
