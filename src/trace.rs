//! The trace model: import-call identities, trace operations and trace data.
use vstd::prelude::*;

pub use crate::text::{sort_log_infos, ReplayPropLogInfo};

verus! {

/// Futex operations supported for record/replay.
#[derive(Debug, PartialEq, Eq, Structural, Clone, Copy)]
pub enum FutexOp {
    Wait,
    Wake,
    Unknown,
}

/// The operation that a raw futex `op` word denotes, ignoring the
/// `FUTEX_PRIVATE` flag (bit 7 and above are masked out).
pub open spec fn futex_op_of(op: i32) -> FutexOp {
    let m = op & 0x7f;
    if m == 0 {
        FutexOp::Wait
    } else if m == 1 {
        FutexOp::Wake
    } else {
        FutexOp::Unknown
    }
}

/// The numeric code of a futex operation: `Wait = 0`, `Wake = 1`, `Unknown = -1`.
pub open spec fn futex_code(op: FutexOp) -> i32 {
    match op {
        FutexOp::Wait => 0,
        FutexOp::Wake => 1,
        FutexOp::Unknown => -1i32,
    }
}

impl FutexOp {
    /// Composes a [FutexOp] from its `i32` representation.
    pub fn from_i32(op: i32) -> (r: Self)
        ensures
            r == futex_op_of(op),
    {
        let m: i32 = op & 0x7f;
        if m == 0 {
            FutexOp::Wait
        } else if m == 1 {
            FutexOp::Wake
        } else {
            FutexOp::Unknown
        }
    }

    /// The numeric code of this operation.
    pub fn to_i32(&self) -> (r: i32)
        ensures
            r == futex_code(*self),
    {
        match self {
            FutexOp::Wait => 0,
            FutexOp::Wake => 1,
            FutexOp::Unknown => -1,
        }
    }
}

/// Wire tag of [CallID::ScGeneric].
pub const GENERIC_TAG: u32 = 0xFFFF_FFFF;

/// The personality of an import call, with its typed arguments.
#[derive(Debug, PartialEq, Eq, Structural, Clone, Copy)]
pub enum CallID {
    ScUnknown,
    ScMmap { grow: u32 },
    ScWritev { fd: i32, iov: i32, iovcnt: u32 },
    ScThreadSpawn { fn_ptr: i32, args_ptr: i32 },
    ScFutex { addr: i32, op: FutexOp, val: u32 },
    ScThreadExit { status: i32 },
    ScProcExit { status: i32 },
    ScGeneric,
}

/// The call identity that a wire tag and a 3-slot argument carrier denote,
/// or `None` for a tag outside the closed set.
pub open spec fn call_id_of(call_id: u32, args: [i64; 3]) -> Option<CallID> {
    if call_id == 0 {
        Some(CallID::ScUnknown)
    } else if call_id == 1 {
        Some(CallID::ScMmap { grow: args[0] as u32 })
    } else if call_id == 2 {
        Some(CallID::ScWritev { fd: args[0] as i32, iov: args[1] as i32, iovcnt: args[2] as u32 })
    } else if call_id == 3 {
        Some(CallID::ScThreadSpawn { fn_ptr: args[0] as i32, args_ptr: args[1] as i32 })
    } else if call_id == 4 {
        Some(
            CallID::ScFutex {
                addr: args[0] as i32,
                op: futex_op_of(args[1] as i32),
                val: args[2] as u32,
            },
        )
    } else if call_id == 5 {
        Some(CallID::ScThreadExit { status: args[0] as i32 })
    } else if call_id == 6 {
        Some(CallID::ScProcExit { status: args[0] as i32 })
    } else if call_id == GENERIC_TAG {
        Some(CallID::ScGeneric)
    } else {
        None
    }
}

/// The wire tag of a call identity.
pub open spec fn call_tag(c: CallID) -> u32 {
    match c {
        CallID::ScUnknown => 0,
        CallID::ScMmap { .. } => 1,
        CallID::ScWritev { .. } => 2,
        CallID::ScThreadSpawn { .. } => 3,
        CallID::ScFutex { .. } => 4,
        CallID::ScThreadExit { .. } => 5,
        CallID::ScProcExit { .. } => 6,
        CallID::ScGeneric => GENERIC_TAG,
    }
}

/// The 3-slot argument carrier of a call identity; unused slots are zero.
pub open spec fn call_args(c: CallID) -> [i64; 3] {
    match c {
        CallID::ScUnknown => [0i64, 0i64, 0i64],
        CallID::ScMmap { grow } => [grow as i64, 0i64, 0i64],
        CallID::ScWritev { fd, iov, iovcnt } => [fd as i64, iov as i64, iovcnt as i64],
        CallID::ScThreadSpawn { fn_ptr, args_ptr } => [fn_ptr as i64, args_ptr as i64, 0i64],
        CallID::ScFutex { addr, op, val } => [addr as i64, futex_code(op) as i64, val as i64],
        CallID::ScThreadExit { status } => [status as i64, 0i64, 0i64],
        CallID::ScProcExit { status } => [status as i64, 0i64, 0i64],
        CallID::ScGeneric => [0i64, 0i64, 0i64],
    }
}

impl CallID {
    /// Converts the wire form (a tag and a 3-slot argument carrier) to a
    /// [CallID]; `None` for a tag outside the closed set.
    pub fn from_parts(call_id: u32, args: [i64; 3]) -> (r: Option<Self>)
        ensures
            r == call_id_of(call_id, args),
    {
        if call_id == 0 {
            Some(CallID::ScUnknown)
        } else if call_id == 1 {
            Some(CallID::ScMmap { grow: args[0] as u32 })
        } else if call_id == 2 {
            Some(
                CallID::ScWritev { fd: args[0] as i32, iov: args[1] as i32, iovcnt: args[2] as u32 },
            )
        } else if call_id == 3 {
            Some(CallID::ScThreadSpawn { fn_ptr: args[0] as i32, args_ptr: args[1] as i32 })
        } else if call_id == 4 {
            Some(
                CallID::ScFutex {
                    addr: args[0] as i32,
                    op: FutexOp::from_i32(args[1] as i32),
                    val: args[2] as u32,
                },
            )
        } else if call_id == 5 {
            Some(CallID::ScThreadExit { status: args[0] as i32 })
        } else if call_id == 6 {
            Some(CallID::ScProcExit { status: args[0] as i32 })
        } else if call_id == GENERIC_TAG {
            Some(CallID::ScGeneric)
        } else {
            None
        }
    }

    /// Converts a [CallID] to its wire form; the reverse of [CallID::from_parts].
    pub fn to_parts(&self) -> (r: (u32, [i64; 3]))
        ensures
            r.0 == call_tag(*self),
            r.1 == call_args(*self),
    {
        match self {
            CallID::ScUnknown => (0, [0, 0, 0]),
            CallID::ScMmap { grow } => (1, [*grow as i64, 0, 0]),
            CallID::ScWritev { fd, iov, iovcnt } => (2, [*fd as i64, *iov as i64, *iovcnt as i64]),
            CallID::ScThreadSpawn { fn_ptr, args_ptr } => (
                3,
                [*fn_ptr as i64, *args_ptr as i64, 0],
            ),
            CallID::ScFutex { addr, op, val } => (4, [*addr as i64, op.to_i32() as i64, *val as i64]),
            CallID::ScThreadExit { status } => (5, [*status as i64, 0, 0]),
            CallID::ScProcExit { status } => (6, [*status as i64, 0, 0]),
            CallID::ScGeneric => (GENERIC_TAG, [0, 0, 0]),
        }
    }
}

proof fn lemma_u32_through_i64(x: u32)
    ensures
        (x as i64) as u32 == x,
{
    assert((x as i64) as u32 == x) by (bit_vector);
}

proof fn lemma_i32_through_i64(x: i32)
    ensures
        (x as i64) as i32 == x,
{
    assert((x as i64) as i32 == x) by (bit_vector);
}

/// Decoding a futex operation's code gives the operation back.
pub proof fn lemma_futex_round_trip(op: FutexOp)
    ensures
        futex_op_of(futex_code(op) as i64 as i32) == op,
{
    let c = futex_code(op);
    lemma_i32_through_i64(c);
    assert((0i32 & 0x7f) == 0i32) by (bit_vector);
    assert((1i32 & 0x7f) == 1i32) by (bit_vector);
    assert((-1i32 & 0x7f) == 0x7fi32) by (bit_vector);
}

/// Every call identity survives the trip through its wire form:
/// `from_parts(to_parts(v)) == Some(v)`.
pub proof fn lemma_call_id_round_trip(v: CallID)
    ensures
        call_id_of(call_tag(v), call_args(v)) == Some(v),
{
    match v {
        CallID::ScMmap { grow } => {
            lemma_u32_through_i64(grow);
        },
        CallID::ScWritev { fd, iov, iovcnt } => {
            lemma_i32_through_i64(fd);
            lemma_i32_through_i64(iov);
            lemma_u32_through_i64(iovcnt);
        },
        CallID::ScThreadSpawn { fn_ptr, args_ptr } => {
            lemma_i32_through_i64(fn_ptr);
            lemma_i32_through_i64(args_ptr);
        },
        CallID::ScFutex { addr, op, val } => {
            lemma_i32_through_i64(addr);
            lemma_futex_round_trip(op);
            lemma_u32_through_i64(val);
        },
        CallID::ScThreadExit { status } => {
            lemma_i32_through_i64(status);
        },
        CallID::ScProcExit { status } => {
            lemma_i32_through_i64(status);
        },
        _ => {},
    }
}

/// One recorded operation of a guest thread.
///
/// `Access` is an ordinary load or store, recorded only when its observed
/// value differs from the expected one; `SyncAccess` is a synchronization
/// access, always recorded; `Call` is an import call.
#[derive(Debug, PartialEq, Eq, Structural, Clone, Copy)]
pub enum TraceOp {
    Access {
        tid: u64,
        access_idx: u32,
        opcode: i32,
        addr: i32,
        size: u32,
        load_value: i64,
        expected_value: i64,
        differ: bool,
    },
    SyncAccess {
        tid: u64,
        access_idx: u32,
        opcode: i32,
        addr: i32,
        size: u32,
        load_value: i64,
        expected_value: i64,
        differ: bool,
    },
    Call { tid: u64, access_idx: u32, opcode: i32, func_idx: u32, return_val: i64, call_id: CallID },
}

/// A finished trace: the digest of the unmodified guest module and the
/// ordered operations.
#[derive(Debug)]
pub struct TraceData {
    pub sha256: String,
    pub trace: Vec<TraceOp>,
}

/// The mathematical value of a [TraceData].
pub struct TraceDataView {
    pub sha256: Seq<char>,
    pub trace: Seq<TraceOp>,
}

impl View for TraceData {
    type V = TraceDataView;

    open spec fn view(&self) -> TraceDataView {
        TraceDataView { sha256: self.sha256@, trace: self.trace@ }
    }
}

} // verus!
