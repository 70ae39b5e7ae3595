//! Text renderings used in debug logs: decimal and hexadecimal numbers,
//! right alignment, and the textual form of call identities.
use vstd::prelude::*;
use vstd::string::StringExecFns;

use crate::trace::{CallID, FutexOp, TraceOp};

verus! {

broadcast use vstd::seq_lib::group_to_multiset_ensures;

/// The digit character of `d` (uppercase for hex digits).
pub open spec fn digit_char(d: nat) -> char {
    if d == 0 {
        '0'
    } else if d == 1 {
        '1'
    } else if d == 2 {
        '2'
    } else if d == 3 {
        '3'
    } else if d == 4 {
        '4'
    } else if d == 5 {
        '5'
    } else if d == 6 {
        '6'
    } else if d == 7 {
        '7'
    } else if d == 8 {
        '8'
    } else if d == 9 {
        '9'
    } else if d == 10 {
        'A'
    } else if d == 11 {
        'B'
    } else if d == 12 {
        'C'
    } else if d == 13 {
        'D'
    } else if d == 14 {
        'E'
    } else {
        'F'
    }
}

/// The decimal digits of `n`, most significant first.
pub open spec fn dec_digits(n: nat) -> Seq<char>
    decreases n,
{
    if n < 10 {
        seq![digit_char(n)]
    } else {
        dec_digits(n / 10).push(digit_char(n % 10))
    }
}

/// The uppercase hexadecimal digits of `n`, most significant first.
pub open spec fn hex_digits(n: nat) -> Seq<char>
    decreases n,
{
    if n < 16 {
        seq![digit_char(n)]
    } else {
        hex_digits(n / 16).push(digit_char(n % 16))
    }
}

pub open spec fn digits(n: nat, hex: bool) -> Seq<char> {
    if hex {
        hex_digits(n)
    } else {
        dec_digits(n)
    }
}

/// The decimal form of `v`, with a leading `-` when negative.
pub open spec fn decimal(v: int) -> Seq<char> {
    if v < 0 {
        seq!['-'] + dec_digits((-v) as nat)
    } else {
        dec_digits(v as nat)
    }
}

/// `s` right-aligned in a field of `w` characters.
pub open spec fn pad_left(s: Seq<char>, w: nat) -> Seq<char> {
    if s.len() >= w {
        s
    } else {
        Seq::new((w - s.len()) as nat, |i: int| ' ') + s
    }
}

fn digit_str(d: u64) -> (r: &'static str)
    requires
        d < 16,
    ensures
        r@ == seq![digit_char(d as nat)],
{
    proof {
        reveal_strlit("0");
        reveal_strlit("1");
        reveal_strlit("2");
        reveal_strlit("3");
        reveal_strlit("4");
        reveal_strlit("5");
        reveal_strlit("6");
        reveal_strlit("7");
        reveal_strlit("8");
        reveal_strlit("9");
        reveal_strlit("A");
        reveal_strlit("B");
        reveal_strlit("C");
        reveal_strlit("D");
        reveal_strlit("E");
        reveal_strlit("F");
    }
    let r = if d == 0 {
        "0"
    } else if d == 1 {
        "1"
    } else if d == 2 {
        "2"
    } else if d == 3 {
        "3"
    } else if d == 4 {
        "4"
    } else if d == 5 {
        "5"
    } else if d == 6 {
        "6"
    } else if d == 7 {
        "7"
    } else if d == 8 {
        "8"
    } else if d == 9 {
        "9"
    } else if d == 10 {
        "A"
    } else if d == 11 {
        "B"
    } else if d == 12 {
        "C"
    } else if d == 13 {
        "D"
    } else if d == 14 {
        "E"
    } else {
        "F"
    };
    assert(r@ =~= seq![digit_char(d as nat)]);
    r
}

fn base_of(hex: bool) -> (b: u64)
    ensures
        b == (if hex {
            16u64
        } else {
            10u64
        }),
{
    if hex {
        16
    } else {
        10
    }
}

/// Appends the digits of `n`, hexadecimal or decimal.
fn push_digits(out: &mut String, n: u64, hex: bool)
    ensures
        final(out)@ == old(out)@ + digits(n as nat, hex),
    decreases n,
{
    let b = base_of(hex);
    if n >= b {
        push_digits(out, n / b, hex);
    }
    out.append(digit_str(n % b));
}

/// The number of digits of `n`, hexadecimal or decimal.
fn count_digits(n: u64, hex: bool) -> (r: u64)
    ensures
        r == digits(n as nat, hex).len(),
    decreases n,
{
    let b = base_of(hex);
    proof {
        lemma_digits_len(n as nat, hex);
        lemma_digits_len((n / b) as nat, hex);
    }
    if n < b {
        1
    } else {
        count_digits(n / b, hex) + 1
    }
}

proof fn lemma_digits_len(n: nat, hex: bool)
    ensures
        1 <= digits(n, hex).len() <= n + 1,
    decreases n,
{
    if hex && n >= 16 {
        lemma_digits_len(n / 16, hex);
    } else if !hex && n >= 10 {
        lemma_digits_len(n / 10, hex);
    }
}

/// Appends `w - len` spaces where `len < w`.
fn push_spaces(out: &mut String, len: u64, w: u64)
    ensures
        final(out)@ == old(out)@ + (if len >= w {
            Seq::<char>::empty()
        } else {
            Seq::new((w - len) as nat, |i: int| ' ')
        }),
{
    proof {
        reveal_strlit(" ");
    }
    let ghost start = out@;
    let mut k: u64 = len;
    while k < w
        invariant
            k >= len,
            k <= w || len >= w,
            len >= w ==> k == len,
            out@ == start + Seq::new((k - len) as nat, |i: int| ' '),
        decreases w - k,
    {
        let ghost before = out@;
        out.append(" ");
        proof {
            reveal_strlit(" ");
            assert(" "@ =~= seq![' ']);
            assert(out@ =~= before + seq![' ']);
            assert(out@ =~= start + Seq::new((k + 1 - len) as nat, |i: int| ' '));
        }
        k = k + 1;
    }
    proof {
        if len >= w {
            assert(Seq::new((k - len) as nat, |i: int| ' ') =~= Seq::<char>::empty());
        }
    }
}

/// Appends `n` in decimal, right-aligned in `w` characters.
pub fn push_decimal_padded(out: &mut String, n: u64, w: u64)
    ensures
        final(out)@ == old(out)@ + pad_left(dec_digits(n as nat), w as nat),
{
    let ghost start = out@;
    let len = count_digits(n, false);
    push_spaces(out, len, w);
    push_digits(out, n, false);
    proof {
        assert(out@ =~= start + pad_left(dec_digits(n as nat), w as nat));
    }
}

/// Appends `v` in decimal.
pub fn push_decimal(out: &mut String, v: i64)
    ensures
        final(out)@ == old(out)@ + decimal(v as int),
{
    if v < 0 {
        let ghost start = out@;
        out.append("-");
        let m: u64 = (-(v + 1)) as u64 + 1;
        push_digits(out, m, false);
        proof {
            reveal_strlit("-");
            assert(out@ =~= start + decimal(v as int));
        }
    } else {
        push_digits(out, v as u64, false);
    }
}

/// `0x` and the uppercase hex digits of `v`'s bit pattern, right-aligned
/// in `w` characters.
pub open spec fn hex_field(v: i64, w: nat) -> Seq<char> {
    pad_left("0x"@ + hex_digits((v as u64) as nat), w)
}

/// Appends [hex_field] of `v`.
pub fn push_hex_padded(out: &mut String, v: i64, w: u64)
    requires
        w >= 2,
    ensures
        final(out)@ == old(out)@ + hex_field(v, w as nat),
{
    let ghost start = out@;
    let u: u64 = v as u64;
    let len = count_digits(u, true);
    push_spaces(out, len, w - 2);
    out.append("0x");
    push_digits(out, u, true);
    proof {
        reveal_strlit("0x");
        assert(out@ =~= start + hex_field(v, w as nat));
    }
}

pub open spec fn futex_text(op: FutexOp) -> Seq<char> {
    match op {
        FutexOp::Wait => "Wait"@,
        FutexOp::Wake => "Wake"@,
        FutexOp::Unknown => "Unknown"@,
    }
}

/// The textual form of a call identity: its variant and named fields.
pub open spec fn call_id_text(c: CallID) -> Seq<char> {
    match c {
        CallID::ScUnknown => "ScUnknown"@,
        CallID::ScMmap { grow } => "ScMmap { grow: "@ + decimal(grow as int) + " }"@,
        CallID::ScWritev { fd, iov, iovcnt } => "ScWritev { fd: "@ + decimal(fd as int) + ", iov: "@
            + decimal(iov as int) + ", iovcnt: "@ + decimal(iovcnt as int) + " }"@,
        CallID::ScThreadSpawn { fn_ptr, args_ptr } => "ScThreadSpawn { fn_ptr: "@ + decimal(
            fn_ptr as int,
        ) + ", args_ptr: "@ + decimal(args_ptr as int) + " }"@,
        CallID::ScFutex { addr, op, val } => "ScFutex { addr: "@ + decimal(addr as int) + ", op: "@
            + futex_text(op) + ", val: "@ + decimal(val as int) + " }"@,
        CallID::ScThreadExit { status } => "ScThreadExit { status: "@ + decimal(status as int)
            + " }"@,
        CallID::ScProcExit { status } => "ScProcExit { status: "@ + decimal(status as int) + " }"@,
        CallID::ScGeneric => "ScGeneric"@,
    }
}

/// Appends the textual form of a call identity.
pub fn push_call_id(out: &mut String, c: CallID)
    ensures
        final(out)@ == old(out)@ + call_id_text(c),
{
    let ghost start = out@;
    match c {
        CallID::ScUnknown => {
            out.append("ScUnknown");
        },
        CallID::ScMmap { grow } => {
            out.append("ScMmap { grow: ");
            push_decimal(out, grow as i64);
            out.append(" }");
        },
        CallID::ScWritev { fd, iov, iovcnt } => {
            out.append("ScWritev { fd: ");
            push_decimal(out, fd as i64);
            out.append(", iov: ");
            push_decimal(out, iov as i64);
            out.append(", iovcnt: ");
            push_decimal(out, iovcnt as i64);
            out.append(" }");
        },
        CallID::ScThreadSpawn { fn_ptr, args_ptr } => {
            out.append("ScThreadSpawn { fn_ptr: ");
            push_decimal(out, fn_ptr as i64);
            out.append(", args_ptr: ");
            push_decimal(out, args_ptr as i64);
            out.append(" }");
        },
        CallID::ScFutex { addr, op, val } => {
            out.append("ScFutex { addr: ");
            push_decimal(out, addr as i64);
            out.append(", op: ");
            match op {
                FutexOp::Wait => out.append("Wait"),
                FutexOp::Wake => out.append("Wake"),
                FutexOp::Unknown => out.append("Unknown"),
            }
            out.append(", val: ");
            push_decimal(out, val as i64);
            out.append(" }");
        },
        CallID::ScThreadExit { status } => {
            out.append("ScThreadExit { status: ");
            push_decimal(out, status as i64);
            out.append(" }");
        },
        CallID::ScProcExit { status } => {
            out.append("ScProcExit { status: ");
            push_decimal(out, status as i64);
            out.append(" }");
        },
        CallID::ScGeneric => {
            out.append("ScGeneric");
        },
    }
    proof {
        assert(out@ =~= start + call_id_text(c));
    }
}

/// Everything worth logging about one replayed prop.
#[derive(Debug, Clone, Copy)]
pub struct ReplayPropLogInfo {
    pub access_idx: u32,
    pub func_idx: u32,
    pub tid: u64,
    pub prop_idx: u32,
    pub call_id: CallID,
    pub return_val: i64,
    pub sync_id: u64,
}

/// The column header of the replayed-props log.
pub open spec fn log_header() -> Seq<char> {
    "[ Sync ID] -- [TID|    Acc#/ Prop#] | [(Func#) CallID =       Return Value]"@
}

/// The log line of one replayed prop, in the columns of [log_header].
pub open spec fn log_line(i: ReplayPropLogInfo) -> Seq<char> {
    "["@ + pad_left(dec_digits(i.sync_id as nat), 8) + "] -- ["@ + pad_left(
        dec_digits(i.tid as nat),
        3,
    ) + "|"@ + pad_left(dec_digits(i.access_idx as nat), 8) + "/"@ + pad_left(
        dec_digits(i.prop_idx as nat),
        6,
    ) + "] | [("@ + pad_left(dec_digits(i.func_idx as nat), 5) + ") "@ + call_id_text(i.call_id)
        + " = "@ + hex_field(i.return_val, 16) + "]"@
}

impl ReplayPropLogInfo {
    /// The column header of the replayed-props log.
    pub fn debug_string_header() -> (r: String)
        ensures
            r@ == log_header(),
    {
        String::from_str("[ Sync ID] -- [TID|    Acc#/ Prop#] | [(Func#) CallID =       Return Value]")
    }

    /// This prop's line in the replayed-props log.
    pub fn to_debug_string(&self) -> (r: String)
        ensures
            r@ == log_line(*self),
    {
        let mut out = String::new();
        out.append("[");
        push_decimal_padded(&mut out, self.sync_id, 8);
        out.append("] -- [");
        push_decimal_padded(&mut out, self.tid, 3);
        out.append("|");
        push_decimal_padded(&mut out, self.access_idx as u64, 8);
        out.append("/");
        push_decimal_padded(&mut out, self.prop_idx as u64, 6);
        out.append("] | [(");
        push_decimal_padded(&mut out, self.func_idx as u64, 5);
        out.append(") ");
        push_call_id(&mut out, self.call_id);
        out.append(" = ");
        push_hex_padded(&mut out, self.return_val, 16);
        out.append("]");
        proof {
            assert(out@ =~= log_line(*self));
        }
        out
    }
}

/// Orders log entries by ascending sync id, keeping each of them.
pub fn sort_log_infos(infos: Vec<ReplayPropLogInfo>) -> (r: Vec<ReplayPropLogInfo>)
    ensures
        forall|a: int, b: int| 0 <= a < b < r@.len() ==> r@[a].sync_id <= r@[b].sync_id,
        r@.to_multiset() == infos@.to_multiset(),
{
    let mut src = infos;
    let mut out: Vec<ReplayPropLogInfo> = Vec::new();
    while src.len() > 0
        invariant
            forall|a: int, b: int| 0 <= a < b < out@.len() ==> out@[a].sync_id <= out@[b].sync_id,
            out@.to_multiset().add(src@.to_multiset()) == infos@.to_multiset(),
        decreases src.len(),
    {
        let ghost src_before = src@;
        let p = src.pop().unwrap();
        proof {
            assert(src_before =~= src@.push(p));
        }
        let mut j: usize = 0;
        while j < out.len() && out[j].sync_id <= p.sync_id
            invariant
                j <= out.len(),
                forall|t: int| 0 <= t < j ==> (#[trigger] out@[t]).sync_id <= p.sync_id,
            decreases out.len() - j,
        {
            j = j + 1;
        }
        let ghost before = out@;
        out.insert(j, p);
        proof {
            assert(out@ =~= before.insert(j as int, p));
            assert(out@.to_multiset() =~= before.to_multiset().insert(p));
            assert(out@.to_multiset().add(src@.to_multiset()) =~= infos@.to_multiset());
            before.insert_ensures(j as int, p);
            assert forall|a: int, b: int| 0 <= a < b < out@.len() implies out@[a].sync_id
                <= out@[b].sync_id by {
                if b < j {
                } else if b == j {
                } else if a < j {
                    assert(out@[b] == before[b - 1]);
                    if (j as int) < before.len() {
                        assert(before[j as int].sync_id <= before[b - 1].sync_id || j == b - 1);
                    }
                } else if a == j {
                    assert(out@[b] == before[b - 1]);
                    assert(before[j as int].sync_id <= before[b - 1].sync_id || j == b - 1);
                } else {
                    assert(out@[a] == before[a - 1]);
                    assert(out@[b] == before[b - 1]);
                }
            }
        }
    }
    proof {
        assert(src@ =~= Seq::<ReplayPropLogInfo>::empty());
        assert(out@.to_multiset() =~= infos@.to_multiset());
    }
    out
}

/// `s` preceded by zeros up to `n` characters.
pub open spec fn zero_pad(s: Seq<char>, n: nat) -> Seq<char> {
    if s.len() >= n {
        s
    } else {
        Seq::new((n - s.len()) as nat, |i: int| '0') + s
    }
}

/// `0x` and the uppercase hex digits of `u`, zero-padded to `w` characters
/// in all.
pub open spec fn hex_zero_field(u: nat, w: nat) -> Seq<char> {
    "0x"@ + zero_pad(hex_digits(u), if w >= 2 {
        (w - 2) as nat
    } else {
        0
    })
}

/// Appends `w - len` zeros where `len < w`.
fn push_zeros(out: &mut String, len: u64, w: u64)
    ensures
        final(out)@ == old(out)@ + (if len >= w {
            Seq::<char>::empty()
        } else {
            Seq::new((w - len) as nat, |i: int| '0')
        }),
{
    let ghost start = out@;
    let mut k: u64 = len;
    while k < w
        invariant
            k >= len,
            k <= w || len >= w,
            len >= w ==> k == len,
            out@ == start + Seq::new((k - len) as nat, |i: int| '0'),
        decreases w - k,
    {
        let ghost before = out@;
        out.append("0");
        proof {
            reveal_strlit("0");
            assert(out@ =~= before + seq!['0']);
            assert(out@ =~= start + Seq::new((k + 1 - len) as nat, |i: int| '0'));
        }
        k = k + 1;
    }
    proof {
        if len >= w {
            assert(Seq::new((k - len) as nat, |i: int| '0') =~= Seq::<char>::empty());
        }
    }
}

/// Appends [hex_zero_field] of `u`.
fn push_hex_zero_padded(out: &mut String, u: u64, w: u64)
    ensures
        final(out)@ == old(out)@ + hex_zero_field(u as nat, w as nat),
{
    let ghost start = out@;
    out.append("0x");
    let len = count_digits(u, true);
    let n: u64 = if w >= 2 {
        w - 2
    } else {
        0
    };
    push_zeros(out, len, n);
    push_digits(out, u, true);
    proof {
        reveal_strlit("0x");
        assert(out@ =~= start + hex_zero_field(u as nat, w as nat));
    }
}

/// Appends `v` in decimal, right-aligned in `w` characters.
fn push_signed_padded(out: &mut String, v: i64, w: u64)
    ensures
        final(out)@ == old(out)@ + pad_left(decimal(v as int), w as nat),
{
    let ghost start = out@;
    let m: u64 = if v < 0 {
        (-(v + 1)) as u64 + 1
    } else {
        v as u64
    };
    let d = count_digits(m, false);
    proof {
        lemma_digits_len(m as nat, false);
    }
    let len: u64 = if v < 0 {
        d + 1
    } else {
        d
    };
    push_spaces(out, len, w);
    push_decimal(out, v);
    proof {
        assert(out@ =~= start + pad_left(decimal(v as int), w as nat));
    }
}

/// Appends a literal right-aligned in `w` characters.
fn push_str_padded(out: &mut String, s: &str, len: u64, w: u64)
    requires
        s@.len() == len,
    ensures
        final(out)@ == old(out)@ + pad_left(s@, w as nat),
{
    let ghost start = out@;
    push_spaces(out, len, w);
    out.append(s);
    proof {
        assert(out@ =~= start + pad_left(s@, w as nat));
    }
}

/// The one-line description of a trace operation.
pub open spec fn trace_op_text(op: TraceOp) -> Seq<char> {
    match op {
        TraceOp::Call { tid, access_idx, opcode, func_idx, return_val, call_id } => pad_left(
            "Call"@,
            10,
        ) + " ["@ + pad_left(dec_digits(tid as nat), 6) + "::"@ + pad_left(
            dec_digits(access_idx as nat),
            6,
        ) + " | "@ + hex_zero_field((opcode as u32) as nat, 4) + "] for ["@ + call_id_text(call_id)
            + " | "@ + pad_left(dec_digits(func_idx as nat), 3) + "] with Return ["@ + "0x"@
            + hex_digits((return_val as u64) as nat) + "]"@,
        TraceOp::Access { tid, access_idx, opcode, addr, size, load_value, expected_value, differ }
        | TraceOp::SyncAccess {
            tid,
            access_idx,
            opcode,
            addr,
            size,
            load_value,
            expected_value,
            differ,
        } => pad_left(
            if op is SyncAccess {
                "SyncAccess"@
            } else if differ {
                "Access"@
            } else {
                "UCAccess"@
            },
            10,
        ) + " ["@ + pad_left(dec_digits(tid as nat), 6) + "::"@ + pad_left(
            dec_digits(access_idx as nat),
            6,
        ) + " | "@ + hex_zero_field((opcode as u32) as nat, 4) + "] for Addr ["@ + pad_left(
            decimal(addr as int),
            6,
        ) + "::"@ + dec_digits(size as nat) + "] with Read ["@ + hex_zero_field(
            (load_value as u64) as nat,
            (2 * size + 2) as nat,
        ) + "] ==/== ["@ + hex_zero_field((expected_value as u64) as nat, (2 * size + 2) as nat) + "]"@,
    }
}

impl TraceOp {
    /// A one-line description of this operation for trace dumps.
    pub fn to_display_string(&self) -> (r: String)
        ensures
            r@ == trace_op_text(*self),
    {
        let mut out = String::new();
        match *self {
            TraceOp::Call { tid, access_idx, opcode, func_idx, return_val, call_id } => {
                proof {
                    reveal_strlit("Call");
                }
                push_str_padded(&mut out, "Call", 4, 10);
                out.append(" [");
                push_decimal_padded(&mut out, tid, 6);
                out.append("::");
                push_decimal_padded(&mut out, access_idx as u64, 6);
                out.append(" | ");
                push_hex_zero_padded(&mut out, (opcode as u32) as u64, 4);
                out.append("] for [");
                push_call_id(&mut out, call_id);
                out.append(" | ");
                push_decimal_padded(&mut out, func_idx as u64, 3);
                out.append("] with Return [");
                push_hex_zero_padded(&mut out, return_val as u64, 0);
                out.append("]");
                proof {
                    reveal_strlit("0x");
                    assert(zero_pad(hex_digits((return_val as u64) as nat), 0) == hex_digits(
                        (return_val as u64) as nat,
                    ));
                    assert(out@ =~= trace_op_text(*self));
                }
            },
            TraceOp::Access { tid, access_idx, opcode, addr, size, load_value, expected_value, differ }
            | TraceOp::SyncAccess {
                tid,
                access_idx,
                opcode,
                addr,
                size,
                load_value,
                expected_value,
                differ,
            } => {
                proof {
                    reveal_strlit("SyncAccess");
                    reveal_strlit("Access");
                    reveal_strlit("UCAccess");
                }
                match *self {
                    TraceOp::SyncAccess { .. } => push_str_padded(&mut out, "SyncAccess", 10, 10),
                    _ => if differ {
                        push_str_padded(&mut out, "Access", 6, 10)
                    } else {
                        push_str_padded(&mut out, "UCAccess", 8, 10)
                    },
                }
                out.append(" [");
                push_decimal_padded(&mut out, tid, 6);
                out.append("::");
                push_decimal_padded(&mut out, access_idx as u64, 6);
                out.append(" | ");
                push_hex_zero_padded(&mut out, (opcode as u32) as u64, 4);
                out.append("] for Addr [");
                push_signed_padded(&mut out, addr as i64, 6);
                out.append("::");
                push_digits(&mut out, size as u64, false);
                out.append("] with Read [");
                let w: u64 = 2 * (size as u64) + 2;
                push_hex_zero_padded(&mut out, load_value as u64, w);
                out.append("] ==/== [");
                push_hex_zero_padded(&mut out, expected_value as u64, w);
                out.append("]");
                proof {
                    assert(out@ =~= trace_op_text(*self));
                }
            },
        }
        out
    }
}

} // verus!
