use wasm_r3::codec::{decode_trace_op, decode_trace_stream, encode_trace_op, put_uvar, TraceError};
use wasm_r3::iovec::{wali_iovecs, WasmIovec};
use wasm_r3::digest::{load_trace_for_module, module_digest};
use wasm_r3::record::{call_trace_op, finalize_trace, memop_trace_op};
use wasm_r3::trace::{CallID, FutexOp, TraceData, TraceOp};

fn sample_ops() -> Vec<TraceOp> {
    vec![
        TraceOp::Call {
            tid: 1,
            access_idx: 10,
            opcode: 0x10,
            func_idx: 4,
            return_val: -1,
            call_id: CallID::ScFutex { addr: -8, op: FutexOp::Unknown, val: u32::MAX },
        },
        TraceOp::Access {
            tid: u64::MAX,
            access_idx: u32::MAX,
            opcode: i32::MIN,
            addr: i32::MAX,
            size: 8,
            load_value: i64::MIN,
            expected_value: i64::MAX,
            differ: true,
        },
        TraceOp::SyncAccess {
            tid: 0,
            access_idx: 0,
            opcode: 0,
            addr: 0,
            size: 0,
            load_value: 0,
            expected_value: 0,
            differ: false,
        },
        TraceOp::Call {
            tid: 2,
            access_idx: 300,
            opcode: 0x10,
            func_idx: 0,
            return_val: 0x1000,
            call_id: CallID::ScGeneric,
        },
        TraceOp::Call {
            tid: 3,
            access_idx: 301,
            opcode: 0x11,
            func_idx: 1,
            return_val: 0,
            call_id: CallID::ScWritev { fd: 1, iov: 0x400, iovcnt: 2 },
        },
    ]
}

#[test]
fn varint_exact_bytes() {
    let mut out = Vec::new();
    put_uvar(&mut out, 300);
    assert_eq!(out, vec![0xac, 0x02]);
    let mut out = Vec::new();
    put_uvar(&mut out, 5);
    assert_eq!(out, vec![5]);
    let mut out = Vec::new();
    put_uvar(&mut out, u64::MAX);
    assert_eq!(out, vec![0xff, 0xff, 0xff, 0xff, 0xff, 0xff, 0xff, 0xff, 0xff, 0x01]);
}

#[test]
fn access_exact_bytes() {
    let op = TraceOp::Access {
        tid: 1,
        access_idx: 2,
        opcode: 0x36,
        addr: 0x10,
        size: 4,
        load_value: 5,
        expected_value: -1,
        differ: true,
    };
    let mut out = Vec::new();
    encode_trace_op(&op, &mut out);
    assert_eq!(out, vec![0x00, 0x01, 0x02, 0x6c, 0x20, 0x04, 0x0a, 0x01, 0x01]);
}

#[test]
fn generic_call_uses_numeric_tag() {
    let op = TraceOp::Call {
        tid: 0,
        access_idx: 0,
        opcode: 0,
        func_idx: 0,
        return_val: 0,
        call_id: CallID::ScGeneric,
    };
    let mut out = Vec::new();
    encode_trace_op(&op, &mut out);
    assert_eq!(out, vec![0x02, 0, 0, 0, 0, 0, 0xff, 0xff, 0xff, 0xff, 0x0f]);
}

#[test]
fn trace_data_exact_bytes() {
    let data = TraceData { sha256: String::from("ab"), trace: vec![] };
    assert_eq!(data.serialize(), vec![0x02, b'a', b'b', 0x00]);
}

#[test]
fn trace_data_round_trip() {
    let data = TraceData { sha256: module_digest(&vec![1, 2, 3]), trace: sample_ops() };
    let bytes = data.serialize();
    let back = TraceData::deserialize(&bytes, None).unwrap();
    assert_eq!(back.sha256, data.sha256);
    assert_eq!(back.trace, data.trace);
}

#[test]
fn op_round_trip_each() {
    for op in sample_ops() {
        let mut out = vec![0xaa];
        encode_trace_op(&op, &mut out);
        let (back, end) = decode_trace_op(&out, 1).unwrap();
        assert_eq!(back, op);
        assert_eq!(end, out.len());
    }
}

#[test]
fn digest_gate() {
    let data = TraceData { sha256: String::from("abc"), trace: sample_ops() };
    let bytes = data.serialize();
    assert!(TraceData::deserialize(&bytes, Some("abc")).is_ok());
    assert_eq!(TraceData::deserialize(&bytes, Some("abd")).unwrap_err(), TraceError::DigestMismatch);
}

#[test]
fn malformed_trace_refused() {
    assert_eq!(TraceData::deserialize(&vec![], None).unwrap_err(), TraceError::Malformed);
    assert_eq!(TraceData::deserialize(&vec![0x05, b'a'], None).unwrap_err(), TraceError::Malformed);
    assert_eq!(
        TraceData::deserialize(&vec![0x01, 0xff, 0x00], None).unwrap_err(),
        TraceError::Malformed
    );
    assert_eq!(
        TraceData::deserialize(&vec![0x00, 0x01, 0x07], None).unwrap_err(),
        TraceError::Malformed
    );
    assert_eq!(
        TraceData::deserialize(&vec![0x00, 0x01, 0x00, 0x00, 0x00, 0x00, 0x00, 0x00, 0x00, 0x00, 0x02], None)
            .unwrap_err(),
        TraceError::Malformed
    );
}

#[test]
fn module_digest_is_sha256_hex() {
    assert_eq!(
        module_digest(&b"hello".to_vec()),
        "2cf24dba5fb0a30e26e83b2ac5b9e29e1b161e5c1fa7425e73043362938b9824"
    );
}

#[test]
fn digest_mismatch_with_module_refused() {
    let wasm = b"\0asm\x01\0\0\0".to_vec();
    let other = b"\0asm\x01\0\0\0\x00".to_vec();
    let data = TraceData { sha256: module_digest(&wasm), trace: sample_ops() };
    let bytes = data.serialize();
    assert!(load_trace_for_module(&bytes, &wasm).is_ok());
    assert_eq!(load_trace_for_module(&bytes, &other).unwrap_err(), TraceError::DigestMismatch);
}

#[test]
fn stream_then_finalize() {
    let ops = sample_ops();
    let mut stream = Vec::new();
    for op in &ops {
        encode_trace_op(op, &mut stream);
    }
    assert_eq!(decode_trace_stream(&stream).unwrap(), ops);
    let bytes = finalize_trace(&stream, "cafe").unwrap();
    let back = TraceData::deserialize(&bytes, Some("cafe")).unwrap();
    assert_eq!(back.trace, ops);
    assert!(decode_trace_stream(&vec![0x07]).is_none());
    assert!(finalize_trace(&vec![0x00, 0x01], "cafe").is_none());
    assert_eq!(decode_trace_stream(&vec![]).unwrap(), vec![]);
}

#[test]
fn call_id_round_trip_all_variants() {
    let all = vec![
        CallID::ScUnknown,
        CallID::ScMmap { grow: u32::MAX },
        CallID::ScWritev { fd: -1, iov: i32::MIN, iovcnt: 7 },
        CallID::ScThreadSpawn { fn_ptr: 12, args_ptr: -3 },
        CallID::ScFutex { addr: 4, op: FutexOp::Wait, val: 1 },
        CallID::ScFutex { addr: 4, op: FutexOp::Wake, val: 2 },
        CallID::ScFutex { addr: 4, op: FutexOp::Unknown, val: 3 },
        CallID::ScThreadExit { status: -2 },
        CallID::ScProcExit { status: 3 },
        CallID::ScGeneric,
    ];
    for v in all {
        let (tag, args) = v.to_parts();
        assert_eq!(CallID::from_parts(tag, args), Some(v));
    }
}

#[test]
fn call_id_parts_exact() {
    assert_eq!(CallID::ScGeneric.to_parts(), (0xFFFF_FFFF, [0, 0, 0]));
    assert_eq!(CallID::ScWritev { fd: 1, iov: 2, iovcnt: 3 }.to_parts(), (2, [1, 2, 3]));
    assert_eq!(CallID::ScFutex { addr: 9, op: FutexOp::Unknown, val: 5 }.to_parts(), (4, [9, -1, 5]));
    assert_eq!(CallID::from_parts(7, [0, 0, 0]), None);
    assert_eq!(CallID::from_parts(1, [0x1_0000_0005, 0, 0]), Some(CallID::ScMmap { grow: 5 }));
    assert_eq!(
        CallID::from_parts(4, [1, 0x81, 2]),
        Some(CallID::ScFutex { addr: 1, op: FutexOp::Wake, val: 2 })
    );
}

#[test]
fn futex_op_masks_private_flag() {
    assert_eq!(FutexOp::from_i32(0), FutexOp::Wait);
    assert_eq!(FutexOp::from_i32(128), FutexOp::Wait);
    assert_eq!(FutexOp::from_i32(129), FutexOp::Wake);
    assert_eq!(FutexOp::from_i32(9), FutexOp::Unknown);
    assert_eq!(FutexOp::from_i32(-1), FutexOp::Unknown);
}

#[test]
fn memop_policy() {
    assert!(memop_trace_op(1, 0, 2, 0x28, 16, 4, 0, 0, 0).is_none());
    assert!(matches!(
        memop_trace_op(1, 1, 2, 0x28, 16, 4, 9, 0, 0),
        Some(TraceOp::Access { differ: true, load_value: 9, .. })
    ));
    assert!(matches!(
        memop_trace_op(1, 0, 2, 0xfe, 16, 4, 9, 0, 1),
        Some(TraceOp::SyncAccess { differ: false, .. })
    ));
    assert!(matches!(
        memop_trace_op(3, 5, 2, 0xfe, 0, 4, 9, 0, 1),
        Some(TraceOp::SyncAccess { differ: true, tid: 3, .. })
    ));
}

#[test]
fn call_record_policy() {
    assert_eq!(
        call_trace_op(1, 2, 0x10, 3, 1, 0x1000, 4, 0, 0),
        Some(TraceOp::Call {
            tid: 1,
            access_idx: 2,
            opcode: 0x10,
            func_idx: 3,
            return_val: 0x1000,
            call_id: CallID::ScMmap { grow: 4 },
        })
    );
    assert_eq!(call_trace_op(1, 2, 0x10, 3, 9, 0, 0, 0, 0), None);
}

#[test]
fn guest_iovecs_little_endian() {
    let mem = vec![0x10, 0x00, 0x00, 0x00, 0x05, 0x00, 0x00, 0x00, 0x78, 0x56, 0x34, 0x12, 0xff, 0xff, 0xff, 0xff, 0xaa];
    assert_eq!(
        wali_iovecs(&mem, 2),
        vec![WasmIovec { base: 0x10, len: 5 }, WasmIovec { base: 0x1234_5678, len: u32::MAX }]
    );
    assert!(wali_iovecs(&mem, 0).is_empty());
}
