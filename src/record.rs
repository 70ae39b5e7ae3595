//! Record-time policy: which guest events become trace operations, and how
//! the intermediate records are packaged into the finished trace.
use vstd::prelude::*;

use crate::codec::{dec_stream, dec_trace_data, enc_trace_data, lemma_trace_data_round_trip, well_formed, decode_trace_stream};
use crate::trace::{call_id_of, CallID, TraceData, TraceDataView, TraceOp};

verus! {

/// The opcode of a direct call; call records with another opcode are
/// suspicious but kept.
pub const DIRECT_CALL_OPCODE: i32 = 0x10;

/// The operation that a memory event records, if any: a synchronization
/// access always, an ordinary access only when its value differs.
pub open spec fn memop_record(
    tid: u64,
    differ: i32,
    access_idx: u32,
    opcode: i32,
    addr: i32,
    size: u32,
    load_value: i64,
    expected_value: i64,
    is_sync_op: i32,
) -> Option<TraceOp> {
    if is_sync_op != 0 {
        Some(
            TraceOp::SyncAccess {
                tid,
                access_idx,
                opcode,
                addr,
                size,
                load_value,
                expected_value,
                differ: differ != 0,
            },
        )
    } else if differ != 0 {
        Some(
            TraceOp::Access {
                tid,
                access_idx,
                opcode,
                addr,
                size,
                load_value,
                expected_value,
                differ: true,
            },
        )
    } else {
        None
    }
}

/// Decides what a memory event of the guest records.
pub fn memop_trace_op(
    tid: u64,
    differ: i32,
    access_idx: u32,
    opcode: i32,
    addr: i32,
    size: u32,
    load_value: i64,
    expected_value: i64,
    is_sync_op: i32,
) -> (r: Option<TraceOp>)
    ensures
        r == memop_record(
            tid,
            differ,
            access_idx,
            opcode,
            addr,
            size,
            load_value,
            expected_value,
            is_sync_op,
        ),
{
    if is_sync_op != 0 {
        Some(
            TraceOp::SyncAccess {
                tid,
                access_idx,
                opcode,
                addr,
                size,
                load_value,
                expected_value,
                differ: differ != 0,
            },
        )
    } else if differ != 0 {
        Some(
            TraceOp::Access {
                tid,
                access_idx,
                opcode,
                addr,
                size,
                load_value,
                expected_value,
                differ: true,
            },
        )
    } else {
        None
    }
}

/// The operation that an import call records; `None` when the call tag is
/// outside the closed set.
pub fn call_trace_op(
    tid: u64,
    access_idx: u32,
    opcode: i32,
    func_idx: u32,
    call_id: u32,
    return_val: i64,
    a1: i64,
    a2: i64,
    a3: i64,
) -> (r: Option<TraceOp>)
    ensures
        match call_id_of(call_id, [a1, a2, a3]) {
            Some(c) => r == Some(
                TraceOp::Call { tid, access_idx, opcode, func_idx, return_val, call_id: c },
            ),
            None => r is None,
        },
{
    match CallID::from_parts(call_id, [a1, a2, a3]) {
        Some(c) => Some(TraceOp::Call { tid, access_idx, opcode, func_idx, return_val, call_id: c }),
        None => None,
    }
}

/// Packages the records of an intermediate trace file with the module's
/// digest into the bytes of the finished trace; `None` when the records do
/// not decode. The finished trace reads back as the same data.
pub fn finalize_trace(stream: &Vec<u8>, sha256: &str) -> (r: Option<Vec<u8>>)
    ensures
        match dec_stream(stream@, 0) {
            Some(ops) => r matches Some(b) && b@ == enc_trace_data(
                (TraceDataView { sha256: sha256@, trace: ops }),
            ) && (well_formed((TraceDataView { sha256: sha256@, trace: ops }))
                ==> dec_trace_data(b@) == Some((TraceDataView { sha256: sha256@, trace: ops }))),
            None => r is None,
        },
{
    let trace = match decode_trace_stream(stream) {
        Some(t) => t,
        None => {
            return None;
        },
    };
    let data = TraceData { sha256: sha256.to_owned(), trace };
    let bytes = data.serialize();
    proof {
        if well_formed(data@) {
            lemma_trace_data_round_trip(data@);
        }
    }
    Some(bytes)
}

} // verus!
