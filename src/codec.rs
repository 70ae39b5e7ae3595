//! The trace codec: a compact binary encoding with variable-length integers
//! (LEB128, zigzag for signed values), tag-prefixed variants and
//! length-prefixed sequences.
use vstd::prelude::*;
use vstd::utf8::{decode_utf8, encode_utf8, valid_utf8};

use crate::trace::{CallID, FutexOp, TraceData, TraceDataView, TraceOp, GENERIC_TAG};

verus! {

/// `128^k`.
pub open spec fn p128(k: nat) -> nat
    decreases k,
{
    if k == 0 {
        1
    } else {
        128 * p128((k - 1) as nat)
    }
}

/// The LEB128 encoding of `v`: seven bits per byte, low bits first, the high
/// bit set on every byte but the last.
pub open spec fn enc_uvar(v: nat) -> Seq<u8>
    decreases v,
{
    if v < 128 {
        seq![v as u8]
    } else {
        seq![(v % 128 + 128) as u8] + enc_uvar(v / 128)
    }
}

/// Reads a LEB128 integer of at most `max` bytes at position `p` of `s`: the
/// value and the position after it.
pub open spec fn dec_uvar(s: Seq<u8>, p: int, max: nat) -> Option<(nat, int)>
    decreases max,
{
    if max == 0 || p < 0 || p >= s.len() {
        None
    } else if s[p] < 128 {
        Some((s[p] as nat, p + 1))
    } else {
        match dec_uvar(s, p + 1, (max - 1) as nat) {
            Some((w, q)) => Some(((s[p] - 128 + 128 * w) as nat, q)),
            None => None,
        }
    }
}

proof fn lemma_p128_pos(k: nat)
    ensures
        p128(k) >= 1,
    decreases k,
{
    if k > 0 {
        lemma_p128_pos((k - 1) as nat);
    }
}

/// A value read from at most `max` bytes is below `128^max`; it ends after
/// `p` and at most `max` bytes further.
proof fn lemma_dec_uvar_bound(s: Seq<u8>, p: int, max: nat)
    ensures
        dec_uvar(s, p, max) matches Some((v, q)) ==> v < p128(max) && p < q <= p + max && q
            <= s.len(),
    decreases max,
{
    if max > 0 && 0 <= p < s.len() {
        lemma_p128_pos((max - 1) as nat);
        if s[p] >= 128 {
            lemma_dec_uvar_bound(s, p + 1, (max - 1) as nat);
            if let Some((w, q)) = dec_uvar(s, p + 1, (max - 1) as nat) {
                let b = s[p] - 128;
                assert(b + 128 * w < 128 * p128((max - 1) as nat)) by (nonlinear_arith)
                    requires
                        0 <= b < 128,
                        w < p128((max - 1) as nat),
                ;
            }
        } else {
            assert(p128(max) == 128 * p128((max - 1) as nat));
        }
    }
}

/// The encoding of a value below `128^k` takes at most `k` bytes.
proof fn lemma_enc_uvar_len(v: nat, k: nat)
    requires
        k >= 1,
        v < p128(k),
    ensures
        1 <= enc_uvar(v).len() <= k,
    decreases v,
{
    if v >= 128 {
        assert(k >= 2) by {
            if k == 1 {
                assert(p128(1) == 128 * p128(0));
            }
        }
        assert(v / 128 < p128((k - 1) as nat)) by (nonlinear_arith)
            requires
                v < 128 * p128((k - 1) as nat),
        ;
        lemma_enc_uvar_len(v / 128, (k - 1) as nat);
    }
}

/// Reading back an encoded value: wherever `enc_uvar(v)` stands in `s`, it
/// reads as `v` and ends where the encoding ends.
pub proof fn lemma_uvar_round_trip(s: Seq<u8>, p: int, v: nat, max: nat)
    requires
        enc_uvar(v).len() <= max,
        0 <= p,
        p + enc_uvar(v).len() <= s.len(),
        s.subrange(p, p + enc_uvar(v).len()) == enc_uvar(v),
    ensures
        dec_uvar(s, p, max) == Some((v, p + enc_uvar(v).len())),
    decreases v,
{
    let e = enc_uvar(v);
    assert(s[p] == s.subrange(p, p + e.len())[0]);
    if v >= 128 {
        let r = enc_uvar(v / 128);
        assert(e == seq![(v % 128 + 128) as u8] + r);
        assert(s.subrange(p + 1, p + 1 + r.len()) =~= s.subrange(p, p + e.len()).subrange(1, e.len() as int));
        assert(e.subrange(1, e.len() as int) =~= r);
        lemma_uvar_round_trip(s, p + 1, v / 128, (max - 1) as nat);
    }
}

/// How one field is written: a LEB128 integer of at most so many bytes, read
/// back within a range; signed kinds go through zigzag first.
#[derive(Debug, PartialEq, Eq, Structural, Clone, Copy)]
pub enum Kind {
    U64,
    U32,
    I64,
    I32,
    /// A boolean: one byte, 0 or 1.
    Flag,
    /// A three-way variant index: 0, 1 or 2.
    Index3,
}

pub open spec fn kind_max_bytes(k: Kind) -> nat {
    match k {
        Kind::U64 | Kind::I64 => 10,
        Kind::U32 | Kind::I32 | Kind::Index3 => 5,
        Kind::Flag => 1,
    }
}

/// The largest code (after zigzag) that a field of kind `k` accepts.
pub open spec fn kind_code_max(k: Kind) -> nat {
    match k {
        Kind::U64 | Kind::I64 => u64::MAX as nat,
        Kind::U32 | Kind::I32 => u32::MAX as nat,
        Kind::Flag => 1,
        Kind::Index3 => 2,
    }
}

pub open spec fn kind_signed(k: Kind) -> bool {
    k is I64 || k is I32
}

/// The values that a field of kind `k` holds.
pub open spec fn in_kind(k: Kind, v: int) -> bool {
    match k {
        Kind::U64 => 0 <= v <= u64::MAX,
        Kind::U32 => 0 <= v <= u32::MAX,
        Kind::I64 => i64::MIN <= v <= i64::MAX,
        Kind::I32 => i32::MIN <= v <= i32::MAX,
        Kind::Flag => 0 <= v <= 1,
        Kind::Index3 => 0 <= v <= 2,
    }
}

/// Zigzag: `0, -1, 1, -2, ...` to `0, 1, 2, 3, ...`.
pub open spec fn zigzag(v: int) -> nat {
    if v >= 0 {
        (2 * v) as nat
    } else {
        (-2 * v - 1) as nat
    }
}

pub open spec fn unzigzag(u: nat) -> int {
    if u % 2 == 0 {
        (u / 2) as int
    } else {
        -((u + 1) / 2)
    }
}

pub open spec fn field_code(k: Kind, v: int) -> nat {
    if kind_signed(k) {
        zigzag(v)
    } else {
        v as nat
    }
}

pub open spec fn field_value(k: Kind, u: nat) -> int {
    if kind_signed(k) {
        unzigzag(u)
    } else {
        u as int
    }
}

pub open spec fn enc_field(k: Kind, v: int) -> Seq<u8> {
    enc_uvar(field_code(k, v))
}

/// Reads a field of kind `k` at position `p`.
pub open spec fn dec_field(k: Kind, s: Seq<u8>, p: int) -> Option<(int, int)> {
    match dec_uvar(s, p, kind_max_bytes(k)) {
        Some((u, q)) => if u <= kind_code_max(k) {
            Some((field_value(k, u), q))
        } else {
            None
        },
        None => None,
    }
}

/// The encoding of the fields `vs`, of kinds `ks`, one after the other.
pub open spec fn enc_fields(ks: Seq<Kind>, vs: Seq<int>) -> Seq<u8>
    decreases ks.len(),
{
    if ks.len() == 0 {
        Seq::empty()
    } else {
        enc_field(ks[0], vs[0]) + enc_fields(ks.drop_first(), vs.drop_first())
    }
}

/// `vs` prepended to a decoded sequence, keeping the end position.
pub open spec fn prepend<T>(vs: Seq<T>, r: Option<(Seq<T>, int)>) -> Option<(Seq<T>, int)> {
    match r {
        Some((ws, q)) => Some((vs + ws, q)),
        None => None,
    }
}

/// Reads the fields of kinds `ks[i..]` one after the other from position `p`.
pub open spec fn dec_fields_from(ks: Seq<Kind>, i: int, s: Seq<u8>, p: int) -> Option<(Seq<int>, int)>
    decreases ks.len() - i,
{
    if i < 0 || i >= ks.len() {
        Some((Seq::empty(), p))
    } else {
        match dec_field(ks[i], s, p) {
            Some((v, q)) => prepend(seq![v], dec_fields_from(ks, i + 1, s, q)),
            None => None,
        }
    }
}

pub open spec fn dec_fields(ks: Seq<Kind>, s: Seq<u8>, p: int) -> Option<(Seq<int>, int)> {
    dec_fields_from(ks, 0, s, p)
}

pub open spec fn all_in_kind(ks: Seq<Kind>, vs: Seq<int>) -> bool {
    &&& ks.len() == vs.len()
    &&& forall|i: int| 0 <= i < ks.len() ==> in_kind(#[trigger] ks[i], vs[i])
}

/// When `a + b` stands at `p` in `s`, `a` stands at `p` and `b` right after it.
pub proof fn lemma_split(s: Seq<u8>, p: int, a: Seq<u8>, b: Seq<u8>)
    requires
        0 <= p,
        p + a.len() + b.len() <= s.len(),
        s.subrange(p, p + a.len() + b.len()) == a + b,
    ensures
        s.subrange(p, p + a.len()) == a,
        s.subrange(p + a.len(), p + a.len() + b.len()) == b,
{
    assert(s.subrange(p, p + a.len()) =~= (a + b).subrange(0, a.len() as int));
    assert(s.subrange(p + a.len(), p + a.len() + b.len()) =~= (a + b).subrange(
        a.len() as int,
        (a.len() + b.len()) as int,
    ));
}

proof fn lemma_p128_values()
    ensures
        p128(1) == 128,
        p128(5) == 34359738368,
        p128(10) == 1180591620717411303424,
{
    reveal_with_fuel(p128, 11);
}

/// A field reads back as written.
pub proof fn lemma_field_round_trip(k: Kind, v: int, s: Seq<u8>, p: int)
    requires
        in_kind(k, v),
        0 <= p,
        p + enc_field(k, v).len() <= s.len(),
        s.subrange(p, p + enc_field(k, v).len()) == enc_field(k, v),
    ensures
        dec_field(k, s, p) == Some((v, p + enc_field(k, v).len())),
{
    let u = field_code(k, v);
    lemma_p128_values();
    assert(u <= kind_code_max(k));
    assert(u < p128(kind_max_bytes(k)));
    lemma_enc_uvar_len(u, kind_max_bytes(k));
    lemma_uvar_round_trip(s, p, u, kind_max_bytes(k));
    assert(field_value(k, u) == v);
}

/// Fields read back as written.
pub proof fn lemma_fields_round_trip(ks: Seq<Kind>, vs: Seq<int>, i: int, s: Seq<u8>, p: int)
    requires
        all_in_kind(ks, vs),
        0 <= i <= ks.len(),
        0 <= p,
        p + enc_fields(ks.skip(i), vs.skip(i)).len() <= s.len(),
        s.subrange(p, p + enc_fields(ks.skip(i), vs.skip(i)).len()) == enc_fields(
            ks.skip(i),
            vs.skip(i),
        ),
    ensures
        dec_fields_from(ks, i, s, p) == Some((vs.skip(i), p + enc_fields(ks.skip(i), vs.skip(i)).len())),
    decreases ks.len() - i,
{
    if i < ks.len() {
        let a = enc_field(ks[i], vs[i]);
        let b = enc_fields(ks.skip(i + 1), vs.skip(i + 1));
        assert(ks.skip(i).drop_first() =~= ks.skip(i + 1));
        assert(vs.skip(i).drop_first() =~= vs.skip(i + 1));
        assert(enc_fields(ks.skip(i), vs.skip(i)) == a + b);
        lemma_split(s, p, a, b);
        lemma_field_round_trip(ks[i], vs[i], s, p);
        lemma_fields_round_trip(ks, vs, i + 1, s, p + a.len());
        assert(seq![vs[i]] + vs.skip(i + 1) =~= vs.skip(i));
    } else {
        assert(ks.skip(i) =~= Seq::<Kind>::empty());
        assert(vs.skip(i) =~= Seq::<int>::empty());
    }
}

/// Appends the LEB128 encoding of `v`.
pub fn put_uvar(out: &mut Vec<u8>, v: u64)
    ensures
        final(out)@ == old(out)@ + enc_uvar(v as nat),
{
    let mut x: u64 = v;
    let ghost start = out@;
    while x >= 128
        invariant
            out@ + enc_uvar(x as nat) == start + enc_uvar(v as nat),
        decreases x,
    {
        let ghost before = out@;
        out.push((x % 128 + 128) as u8);
        proof {
            assert(enc_uvar(x as nat) == seq![(x % 128 + 128) as u8] + enc_uvar((x / 128) as nat));
            assert(out@ + enc_uvar((x / 128) as nat) =~= before + enc_uvar(x as nat));
        }
        x = x / 128;
    }
    let ghost before = out@;
    out.push(x as u8);
    proof {
        assert(out@ =~= before + enc_uvar(x as nat));
    }
}

/// Reads a LEB128 integer of at most `max` bytes at position `p`.
fn get_uvar(buf: &[u8], p: usize, max: usize) -> (r: Option<(u128, usize)>)
    requires
        max <= 10,
    ensures
        match dec_uvar(buf@, p as int, max as nat) {
            Some((v, q)) => r matches Some((v2, q2)) && v2 as nat == v && q2 as int == q && v < p128(
                max as nat,
            ) && p < q <= buf@.len(),
            None => r is None,
        },
    decreases max,
{
    proof {
        lemma_dec_uvar_bound(buf@, p as int, max as nat);
    }
    if max == 0 || p >= buf.len() {
        return None;
    }
    let b = buf[p];
    if b < 128 {
        Some((b as u128, p + 1))
    } else {
        match get_uvar(buf, p + 1, max - 1) {
            Some((w, q)) => {
                proof {
                    lemma_p128_values();
                    lemma_p128_mono((max - 1) as nat, 9);
                    assert(128 * w < 128 * p128(9)) by (nonlinear_arith)
                        requires
                            w < p128(9),
                    ;
                    assert(p128(10) == 128 * p128(9));
                }
                Some(((b - 128) as u128 + 128 * w, q))
            },
            None => None,
        }
    }
}

proof fn lemma_p128_mono(a: nat, b: nat)
    requires
        a <= b,
    ensures
        p128(a) <= p128(b),
    decreases b,
{
    if a < b {
        lemma_p128_mono(a, (b - 1) as nat);
        lemma_p128_pos((b - 1) as nat);
    }
}

fn kind_max_bytes_exec(k: Kind) -> (r: usize)
    ensures
        r == kind_max_bytes(k),
{
    match k {
        Kind::U64 | Kind::I64 => 10,
        Kind::U32 | Kind::I32 | Kind::Index3 => 5,
        Kind::Flag => 1,
    }
}

fn kind_code_max_exec(k: Kind) -> (r: u128)
    ensures
        r == kind_code_max(k),
{
    match k {
        Kind::U64 | Kind::I64 => 0xFFFF_FFFF_FFFF_FFFF,
        Kind::U32 | Kind::I32 => 0xFFFF_FFFF,
        Kind::Flag => 1,
        Kind::Index3 => 2,
    }
}

/// Reads a field of kind `k` at position `p`.
pub fn get_field(buf: &[u8], p: usize, k: Kind) -> (r: Option<(i128, usize)>)
    ensures
        match dec_field(k, buf@, p as int) {
            Some((v, q)) => r matches Some((v2, q2)) && v2 as int == v && q2 as int == q && in_kind(
                k,
                v,
            ),
            None => r is None,
        },
{
    let max = kind_max_bytes_exec(k);
    proof {
        lemma_p128_values();
        lemma_p128_mono(max as nat, 10);
    }
    match get_uvar(buf, p, max) {
        Some((u, q)) => {
            if u > kind_code_max_exec(k) {
                return None;
            }
            let signed = match k {
                Kind::I64 | Kind::I32 => true,
                _ => false,
            };
            let v: i128 = if signed {
                if u % 2 == 0 {
                    (u / 2) as i128
                } else {
                    -(((u + 1) / 2) as i128)
                }
            } else {
                u as i128
            };
            proof {
                assert(signed == kind_signed(k));
                assert(v as int == field_value(k, u as nat));
                assert(in_kind(k, v as int));
                let (du, dq) = dec_uvar(buf@, p as int, kind_max_bytes(k)).unwrap();
                assert(du == u as nat);
                assert(dq == q as int);
                assert(dec_field(k, buf@, p as int) == Some((v as int, q as int)));
            }
            Some((v, q))
        },
        None => None,
    }
}

/// Appends a field of kind `k`.
pub fn put_field(out: &mut Vec<u8>, k: Kind, v: i128)
    requires
        in_kind(k, v as int),
    ensures
        final(out)@ == old(out)@ + enc_field(k, v as int),
{
    let signed = match k {
        Kind::I64 | Kind::I32 => true,
        _ => false,
    };
    let code: u64 = if signed {
        assert(i64::MIN <= v <= i64::MAX);
        if v >= 0 {
            (2 * v) as u64
        } else {
            let w: i128 = -(v + 1);
            (2 * w + 1) as u64
        }
    } else {
        v as u64
    };
    assert(code as nat == field_code(k, v as int));
    put_uvar(out, code);
}

/// Appends the fields `vs` of kinds `ks`.
pub fn put_fields(out: &mut Vec<u8>, ks: &Vec<Kind>, vs: &Vec<i128>)
    requires
        all_in_kind(ks@, vs@.map_values(|v: i128| v as int)),
    ensures
        final(out)@ == old(out)@ + enc_fields(ks@, vs@.map_values(|v: i128| v as int)),
{
    let ghost iv = vs@.map_values(|v: i128| v as int);
    let ghost start = out@;
    let mut i: usize = 0;
    proof {
        assert(ks@.skip(0) =~= ks@);
        assert(iv.skip(0) =~= iv);
    }
    while i < ks.len()
        invariant
            all_in_kind(ks@, iv),
            iv == vs@.map_values(|v: i128| v as int),
            i <= ks.len(),
            out@ + enc_fields(ks@.skip(i as int), iv.skip(i as int)) == start + enc_fields(ks@, iv),
        decreases ks.len() - i,
    {
        let ghost before = out@;
        proof {
            assert(ks@.skip(i as int).drop_first() =~= ks@.skip(i + 1));
            assert(iv.skip(i as int).drop_first() =~= iv.skip(i + 1));
            assert(in_kind(ks@[i as int], iv[i as int]));
        }
        put_field(out, ks[i], vs[i]);
        proof {
            assert(out@ + enc_fields(ks@.skip(i + 1), iv.skip(i + 1)) =~= before + enc_fields(
                ks@.skip(i as int),
                iv.skip(i as int),
            ));
        }
        i = i + 1;
    }
    proof {
        assert(ks@.skip(i as int) =~= Seq::<Kind>::empty());
        assert(ks@.skip(0) =~= ks@);
        assert(iv.skip(0) =~= iv);
        assert(out@ =~= start + enc_fields(ks@, iv));
    }
}

/// Reads the fields of kinds `ks` one after the other from position `p`.
pub fn get_fields(buf: &[u8], p: usize, ks: &Vec<Kind>) -> (r: Option<(Vec<i128>, usize)>)
    ensures
        match dec_fields(ks@, buf@, p as int) {
            Some((vs, q)) => r matches Some((ws, q2)) && ws@.map_values(|v: i128| v as int) == vs
                && q2 == q && all_in_kind(ks@, vs),
            None => r is None,
        },
{
    let mut vals: Vec<i128> = Vec::new();
    let mut pos: usize = p;
    let mut i: usize = 0;
    while i < ks.len()
        invariant
            i <= ks.len(),
            vals@.len() == i,
            forall|t: int| 0 <= t < i ==> in_kind(ks@[t], #[trigger] vals@[t] as int),
            dec_fields(ks@, buf@, p as int) == prepend(
                vals@.map_values(|v: i128| v as int),
                dec_fields_from(ks@, i as int, buf@, pos as int),
            ),
        decreases ks.len() - i,
    {
        match get_field(buf, pos, ks[i]) {
            Some((v, q)) => {
                let ghost old_vals = vals@;
                vals.push(v);
                proof {
                    assert(dec_field(ks@[i as int], buf@, pos as int) == Some((v as int, q as int)));
                    assert(dec_fields_from(ks@, i as int, buf@, pos as int) == prepend(
                        seq![v as int],
                        dec_fields_from(ks@, i + 1, buf@, q as int),
                    ));
                    assert(vals@.map_values(|v: i128| v as int) =~= old_vals.map_values(
                        |v: i128| v as int,
                    ) + seq![v as int]);
                    match dec_fields_from(ks@, i + 1, buf@, q as int) {
                        Some((ws, _)) => {
                            assert(old_vals.map_values(|v: i128| v as int) + (seq![v as int]
                                + ws) =~= vals@.map_values(|v: i128| v as int) + ws);
                        },
                        None => {},
                    }
                }
                pos = q;
            },
            None => {
                return None;
            },
        }
        i = i + 1;
    }
    proof {
        assert(vals@.map_values(|v: i128| v as int) + Seq::empty() =~= vals@.map_values(
            |v: i128| v as int,
        ));
        let vs = vals@.map_values(|v: i128| v as int);
        assert forall|t: int| 0 <= t < ks@.len() implies in_kind(#[trigger] ks@[t], vs[t]) by {
            assert(in_kind(ks@[t], vals@[t] as int));
        }
    }
    Some((vals, pos))
}

pub open spec fn flag(b: bool) -> int {
    if b {
        1
    } else {
        0
    }
}

/// The variant index of a futex operation on the wire.
pub open spec fn futex_index(op: FutexOp) -> int {
    match op {
        FutexOp::Wait => 0,
        FutexOp::Wake => 1,
        FutexOp::Unknown => 2,
    }
}

pub open spec fn futex_from_index(i: int) -> FutexOp {
    if i == 0 {
        FutexOp::Wait
    } else if i == 1 {
        FutexOp::Wake
    } else {
        FutexOp::Unknown
    }
}

pub open spec fn is_call_tag(t: int) -> bool {
    0 <= t <= 6 || t == GENERIC_TAG
}

/// The kinds of the fields of the call identity with wire tag `t`.
pub open spec fn call_kinds(t: int) -> Seq<Kind> {
    if t == 1 {
        seq![Kind::U32]
    } else if t == 2 {
        seq![Kind::I32, Kind::I32, Kind::U32]
    } else if t == 3 {
        seq![Kind::I32, Kind::I32]
    } else if t == 4 {
        seq![Kind::I32, Kind::Index3, Kind::U32]
    } else if t == 5 || t == 6 {
        seq![Kind::I32]
    } else {
        Seq::empty()
    }
}

/// The fields of a call identity.
pub open spec fn call_vals(c: CallID) -> Seq<int> {
    match c {
        CallID::ScMmap { grow } => seq![grow as int],
        CallID::ScWritev { fd, iov, iovcnt } => seq![fd as int, iov as int, iovcnt as int],
        CallID::ScThreadSpawn { fn_ptr, args_ptr } => seq![fn_ptr as int, args_ptr as int],
        CallID::ScFutex { addr, op, val } => seq![addr as int, futex_index(op), val as int],
        CallID::ScThreadExit { status } => seq![status as int],
        CallID::ScProcExit { status } => seq![status as int],
        _ => Seq::empty(),
    }
}

/// The call identity with wire tag `t` and fields `vs`.
pub open spec fn call_from(t: int, vs: Seq<int>) -> CallID {
    if t == 1 {
        CallID::ScMmap { grow: vs[0] as u32 }
    } else if t == 2 {
        CallID::ScWritev { fd: vs[0] as i32, iov: vs[1] as i32, iovcnt: vs[2] as u32 }
    } else if t == 3 {
        CallID::ScThreadSpawn { fn_ptr: vs[0] as i32, args_ptr: vs[1] as i32 }
    } else if t == 4 {
        CallID::ScFutex { addr: vs[0] as i32, op: futex_from_index(vs[1]), val: vs[2] as u32 }
    } else if t == 5 {
        CallID::ScThreadExit { status: vs[0] as i32 }
    } else if t == 6 {
        CallID::ScProcExit { status: vs[0] as i32 }
    } else if t == 0 {
        CallID::ScUnknown
    } else {
        CallID::ScGeneric
    }
}

/// A call identity on the wire: its numeric tag, then its own fields.
pub open spec fn enc_call_id(c: CallID) -> Seq<u8> {
    let t = crate::trace::call_tag(c) as int;
    enc_field(Kind::U32, t) + enc_fields(call_kinds(t), call_vals(c))
}

pub open spec fn dec_call_id(s: Seq<u8>, p: int) -> Option<(CallID, int)> {
    match dec_field(Kind::U32, s, p) {
        Some((t, q)) => if is_call_tag(t) {
            match dec_fields(call_kinds(t), s, q) {
                Some((vs, r)) => Some((call_from(t, vs), r)),
                None => None,
            }
        } else {
            None
        },
        None => None,
    }
}

pub open spec fn access_kinds() -> Seq<Kind> {
    seq![Kind::U64, Kind::U32, Kind::I32, Kind::I32, Kind::U32, Kind::I64, Kind::I64, Kind::Flag]
}

pub open spec fn call_head_kinds() -> Seq<Kind> {
    seq![Kind::U64, Kind::U32, Kind::I32, Kind::U32, Kind::I64]
}

/// The variant index of a trace operation on the wire.
pub open spec fn op_tag(op: TraceOp) -> int {
    match op {
        TraceOp::Access { .. } => 0,
        TraceOp::SyncAccess { .. } => 1,
        TraceOp::Call { .. } => 2,
    }
}

/// The fields of an operation, but for a call's identity.
pub open spec fn op_vals(op: TraceOp) -> Seq<int> {
    match op {
        TraceOp::Access { tid, access_idx, opcode, addr, size, load_value, expected_value, differ }
        | TraceOp::SyncAccess {
            tid,
            access_idx,
            opcode,
            addr,
            size,
            load_value,
            expected_value,
            differ,
        } => seq![
            tid as int,
            access_idx as int,
            opcode as int,
            addr as int,
            size as int,
            load_value as int,
            expected_value as int,
            flag(differ),
        ],
        TraceOp::Call { tid, access_idx, opcode, func_idx, return_val, .. } => seq![
            tid as int,
            access_idx as int,
            opcode as int,
            func_idx as int,
            return_val as int,
        ],
    }
}

pub open spec fn access_from(t: int, vs: Seq<int>) -> TraceOp {
    if t == 0 {
        TraceOp::Access {
            tid: vs[0] as u64,
            access_idx: vs[1] as u32,
            opcode: vs[2] as i32,
            addr: vs[3] as i32,
            size: vs[4] as u32,
            load_value: vs[5] as i64,
            expected_value: vs[6] as i64,
            differ: vs[7] == 1,
        }
    } else {
        TraceOp::SyncAccess {
            tid: vs[0] as u64,
            access_idx: vs[1] as u32,
            opcode: vs[2] as i32,
            addr: vs[3] as i32,
            size: vs[4] as u32,
            load_value: vs[5] as i64,
            expected_value: vs[6] as i64,
            differ: vs[7] == 1,
        }
    }
}

pub open spec fn call_op_from(vs: Seq<int>, c: CallID) -> TraceOp {
    TraceOp::Call {
        tid: vs[0] as u64,
        access_idx: vs[1] as u32,
        opcode: vs[2] as i32,
        func_idx: vs[3] as u32,
        return_val: vs[4] as i64,
        call_id: c,
    }
}

/// A trace operation on the wire: its variant index, then its fields.
pub open spec fn enc_op(op: TraceOp) -> Seq<u8> {
    match op {
        TraceOp::Call { call_id, .. } => enc_field(Kind::U32, 2) + enc_fields(
            call_head_kinds(),
            op_vals(op),
        ) + enc_call_id(call_id),
        _ => enc_field(Kind::U32, op_tag(op)) + enc_fields(access_kinds(), op_vals(op)),
    }
}

/// Reads one trace operation at position `p`.
pub open spec fn dec_op(s: Seq<u8>, p: int) -> Option<(TraceOp, int)> {
    match dec_field(Kind::U32, s, p) {
        Some((t, q)) => if t == 0 || t == 1 {
            match dec_fields(access_kinds(), s, q) {
                Some((vs, r)) => Some((access_from(t, vs), r)),
                None => None,
            }
        } else if t == 2 {
            match dec_fields(call_head_kinds(), s, q) {
                Some((vs, r)) => match dec_call_id(s, r) {
                    Some((c, r2)) => Some((call_op_from(vs, c), r2)),
                    None => None,
                },
                None => None,
            }
        } else {
            None
        },
        None => None,
    }
}

proof fn lemma_all_fields_round_trip(ks: Seq<Kind>, vs: Seq<int>, s: Seq<u8>, p: int)
    requires
        all_in_kind(ks, vs),
        0 <= p,
        p + enc_fields(ks, vs).len() <= s.len(),
        s.subrange(p, p + enc_fields(ks, vs).len()) == enc_fields(ks, vs),
    ensures
        dec_fields(ks, s, p) == Some((vs, p + enc_fields(ks, vs).len())),
{
    assert(ks.skip(0) =~= ks);
    assert(vs.skip(0) =~= vs);
    lemma_fields_round_trip(ks, vs, 0, s, p);
}

/// A call identity reads back as written.
pub proof fn lemma_call_id_codec_round_trip(c: CallID, s: Seq<u8>, p: int)
    requires
        0 <= p,
        p + enc_call_id(c).len() <= s.len(),
        s.subrange(p, p + enc_call_id(c).len()) == enc_call_id(c),
    ensures
        dec_call_id(s, p) == Some((c, p + enc_call_id(c).len())),
{
    let t = crate::trace::call_tag(c) as int;
    let a = enc_field(Kind::U32, t);
    let b = enc_fields(call_kinds(t), call_vals(c));
    lemma_split(s, p, a, b);
    lemma_field_round_trip(Kind::U32, t, s, p);
    match c {
        CallID::ScFutex { op, .. } => {
            assert(in_kind(Kind::Index3, futex_index(op)));
        },
        _ => {},
    }
    assert(all_in_kind(call_kinds(t), call_vals(c)));
    lemma_all_fields_round_trip(call_kinds(t), call_vals(c), s, p + a.len());
    assert(call_from(t, call_vals(c)) == c);
}

/// A trace operation reads back as written.
pub proof fn lemma_op_round_trip(op: TraceOp, s: Seq<u8>, p: int)
    requires
        0 <= p,
        p + enc_op(op).len() <= s.len(),
        s.subrange(p, p + enc_op(op).len()) == enc_op(op),
    ensures
        dec_op(s, p) == Some((op, p + enc_op(op).len())),
{
    let a = enc_field(Kind::U32, op_tag(op));
    match op {
        TraceOp::Call { call_id, .. } => {
            let b = enc_fields(call_head_kinds(), op_vals(op));
            let c = enc_call_id(call_id);
            assert(enc_op(op) == a + (b + c));
            lemma_split(s, p, a, b + c);
            lemma_field_round_trip(Kind::U32, op_tag(op), s, p);
            lemma_split(s, p + a.len(), b, c);
            assert(all_in_kind(call_head_kinds(), op_vals(op)));
            lemma_all_fields_round_trip(call_head_kinds(), op_vals(op), s, p + a.len());
            lemma_call_id_codec_round_trip(call_id, s, p + a.len() + b.len());
            assert(call_op_from(op_vals(op), call_id) == op);
        },
        _ => {
            let b = enc_fields(access_kinds(), op_vals(op));
            lemma_split(s, p, a, b);
            lemma_field_round_trip(Kind::U32, op_tag(op), s, p);
            assert(all_in_kind(access_kinds(), op_vals(op)));
            lemma_all_fields_round_trip(access_kinds(), op_vals(op), s, p + a.len());
            assert(access_from(op_tag(op), op_vals(op)) == op);
        },
    }
}

fn futex_index_exec(op: FutexOp) -> (r: i128)
    ensures
        r == futex_index(op),
{
    match op {
        FutexOp::Wait => 0,
        FutexOp::Wake => 1,
        FutexOp::Unknown => 2,
    }
}

fn futex_from_index_exec(i: i128) -> (r: FutexOp)
    ensures
        r == futex_from_index(i as int),
{
    if i == 0 {
        FutexOp::Wait
    } else if i == 1 {
        FutexOp::Wake
    } else {
        FutexOp::Unknown
    }
}

fn call_kinds_exec(t: u32) -> (r: Vec<Kind>)
    ensures
        r@ == call_kinds(t as int),
{
    let mut r: Vec<Kind> = Vec::new();
    if t == 1 {
        r.push(Kind::U32);
    } else if t == 2 {
        r.push(Kind::I32);
        r.push(Kind::I32);
        r.push(Kind::U32);
    } else if t == 3 {
        r.push(Kind::I32);
        r.push(Kind::I32);
    } else if t == 4 {
        r.push(Kind::I32);
        r.push(Kind::Index3);
        r.push(Kind::U32);
    } else if t == 5 || t == 6 {
        r.push(Kind::I32);
    }
    proof {
        assert(r@ =~= call_kinds(t as int));
    }
    r
}

pub open spec fn ints(v: Seq<i128>) -> Seq<int> {
    v.map_values(|x: i128| x as int)
}

fn call_vals_exec(c: CallID) -> (r: Vec<i128>)
    ensures
        ints(r@) == call_vals(c),
{
    let mut r: Vec<i128> = Vec::new();
    match c {
        CallID::ScMmap { grow } => {
            r.push(grow as i128);
        },
        CallID::ScWritev { fd, iov, iovcnt } => {
            r.push(fd as i128);
            r.push(iov as i128);
            r.push(iovcnt as i128);
        },
        CallID::ScThreadSpawn { fn_ptr, args_ptr } => {
            r.push(fn_ptr as i128);
            r.push(args_ptr as i128);
        },
        CallID::ScFutex { addr, op, val } => {
            r.push(addr as i128);
            r.push(futex_index_exec(op));
            r.push(val as i128);
        },
        CallID::ScThreadExit { status } => {
            r.push(status as i128);
        },
        CallID::ScProcExit { status } => {
            r.push(status as i128);
        },
        _ => {},
    }
    proof {
        assert(ints(r@) =~= call_vals(c));
    }
    r
}

fn access_kinds_exec() -> (r: Vec<Kind>)
    ensures
        r@ == access_kinds(),
{
    let r = vec![Kind::U64, Kind::U32, Kind::I32, Kind::I32, Kind::U32, Kind::I64, Kind::I64, Kind::Flag];
    proof {
        assert(r@ =~= access_kinds());
    }
    r
}

fn call_head_kinds_exec() -> (r: Vec<Kind>)
    ensures
        r@ == call_head_kinds(),
{
    let r = vec![Kind::U64, Kind::U32, Kind::I32, Kind::U32, Kind::I64];
    proof {
        assert(r@ =~= call_head_kinds());
    }
    r
}

/// Appends the encoding of a call identity.
fn encode_call_id(c: CallID, out: &mut Vec<u8>)
    ensures
        final(out)@ == old(out)@ + enc_call_id(c),
{
    let (t, _) = c.to_parts();
    let ks = call_kinds_exec(t);
    let vs = call_vals_exec(c);
    let ghost start = out@;
    put_field(out, Kind::U32, t as i128);
    proof {
        match c {
            CallID::ScFutex { op, .. } => {
                assert(in_kind(Kind::Index3, futex_index(op)));
            },
            _ => {},
        }
        assert(all_in_kind(ks@, ints(vs@)));
    }
    put_fields(out, &ks, &vs);
    proof {
        assert(out@ =~= start + enc_call_id(c));
    }
}

/// Appends the encoding of one trace operation: the record that the
/// intermediate trace file holds for it.
pub fn encode_trace_op(op: &TraceOp, out: &mut Vec<u8>)
    ensures
        final(out)@ == old(out)@ + enc_op(*op),
{
    let ghost start = out@;
    match *op {
        TraceOp::Access { tid, access_idx, opcode, addr, size, load_value, expected_value, differ }
        | TraceOp::SyncAccess {
            tid,
            access_idx,
            opcode,
            addr,
            size,
            load_value,
            expected_value,
            differ,
        } => {
            let tag: i128 = match *op {
                TraceOp::Access { .. } => 0,
                _ => 1,
            };
            put_field(out, Kind::U32, tag);
            let ks = access_kinds_exec();
            let vs = vec![
                tid as i128,
                access_idx as i128,
                opcode as i128,
                addr as i128,
                size as i128,
                load_value as i128,
                expected_value as i128,
                if differ { 1 } else { 0 },
            ];
            proof {
                assert(ints(vs@) =~= op_vals(*op));
            }
            put_fields(out, &ks, &vs);
            proof {
                assert(out@ =~= start + enc_op(*op));
            }
        },
        TraceOp::Call { tid, access_idx, opcode, func_idx, return_val, call_id } => {
            put_field(out, Kind::U32, 2);
            let ks = call_head_kinds_exec();
            let vs = vec![
                tid as i128,
                access_idx as i128,
                opcode as i128,
                func_idx as i128,
                return_val as i128,
            ];
            proof {
                assert(ints(vs@) =~= op_vals(*op));
            }
            put_fields(out, &ks, &vs);
            encode_call_id(call_id, out);
            proof {
                assert(out@ =~= start + enc_op(*op));
            }
        },
    }
}

/// Reads a call identity at position `p`.
fn decode_call_id(buf: &[u8], p: usize) -> (r: Option<(CallID, usize)>)
    ensures
        match dec_call_id(buf@, p as int) {
            Some((c, q)) => r matches Some((c2, q2)) && c2 == c && q2 as int == q,
            None => r is None,
        },
{
    let (t, q) = match get_field(buf, p, Kind::U32) {
        Some(x) => x,
        None => {
            return None;
        },
    };
    if !(0 <= t && t <= 6) && t != 0xFFFF_FFFF {
        return None;
    }
    let ks = call_kinds_exec(t as u32);
    let (vs, r) = match get_fields(buf, q, &ks) {
        Some(x) => x,
        None => {
            return None;
        },
    };
    proof {
        assert(vs@.len() == call_kinds(t as int).len());
    }
    let c = if t == 1 {
        CallID::ScMmap { grow: vs[0] as u32 }
    } else if t == 2 {
        CallID::ScWritev { fd: vs[0] as i32, iov: vs[1] as i32, iovcnt: vs[2] as u32 }
    } else if t == 3 {
        CallID::ScThreadSpawn { fn_ptr: vs[0] as i32, args_ptr: vs[1] as i32 }
    } else if t == 4 {
        CallID::ScFutex { addr: vs[0] as i32, op: futex_from_index_exec(vs[1]), val: vs[2] as u32 }
    } else if t == 5 {
        CallID::ScThreadExit { status: vs[0] as i32 }
    } else if t == 6 {
        CallID::ScProcExit { status: vs[0] as i32 }
    } else if t == 0 {
        CallID::ScUnknown
    } else {
        CallID::ScGeneric
    };
    proof {
        assert(c == call_from(t as int, ints(vs@)));
    }
    Some((c, r))
}

/// Reads one trace operation at position `p`: the operation and the position
/// after it.
pub fn decode_trace_op(buf: &[u8], p: usize) -> (r: Option<(TraceOp, usize)>)
    ensures
        match dec_op(buf@, p as int) {
            Some((o, q)) => r matches Some((o2, q2)) && o2 == o && q2 as int == q,
            None => r is None,
        },
{
    let (t, q) = match get_field(buf, p, Kind::U32) {
        Some(x) => x,
        None => {
            return None;
        },
    };
    if t == 0 || t == 1 {
        let ks = access_kinds_exec();
        let (vs, r) = match get_fields(buf, q, &ks) {
            Some(x) => x,
            None => {
                return None;
            },
        };
        proof {
            assert(vs@.len() == 8);
        }
        let op = if t == 0 {
            TraceOp::Access {
                tid: vs[0] as u64,
                access_idx: vs[1] as u32,
                opcode: vs[2] as i32,
                addr: vs[3] as i32,
                size: vs[4] as u32,
                load_value: vs[5] as i64,
                expected_value: vs[6] as i64,
                differ: vs[7] == 1,
            }
        } else {
            TraceOp::SyncAccess {
                tid: vs[0] as u64,
                access_idx: vs[1] as u32,
                opcode: vs[2] as i32,
                addr: vs[3] as i32,
                size: vs[4] as u32,
                load_value: vs[5] as i64,
                expected_value: vs[6] as i64,
                differ: vs[7] == 1,
            }
        };
        proof {
            assert(op == access_from(t as int, ints(vs@)));
        }
        Some((op, r))
    } else if t == 2 {
        let ks = call_head_kinds_exec();
        let (vs, r) = match get_fields(buf, q, &ks) {
            Some(x) => x,
            None => {
                return None;
            },
        };
        proof {
            assert(vs@.len() == 5);
        }
        let (c, r2) = match decode_call_id(buf, r) {
            Some(x) => x,
            None => {
                return None;
            },
        };
        let op = TraceOp::Call {
            tid: vs[0] as u64,
            access_idx: vs[1] as u32,
            opcode: vs[2] as i32,
            func_idx: vs[3] as u32,
            return_val: vs[4] as i64,
            call_id: c,
        };
        proof {
            assert(op == call_op_from(ints(vs@), c));
        }
        Some((op, r2))
    } else {
        None
    }
}

/// Operations back to back, with no length prefix: the layout of the
/// intermediate trace file.
pub open spec fn enc_ops(ops: Seq<TraceOp>) -> Seq<u8>
    decreases ops.len(),
{
    if ops.len() == 0 {
        Seq::empty()
    } else {
        enc_ops(ops.drop_last()) + enc_op(ops.last())
    }
}

/// Reads `n` operations one after the other from position `p`.
pub open spec fn dec_ops(s: Seq<u8>, p: int, n: nat) -> Option<(Seq<TraceOp>, int)>
    decreases n,
{
    if n == 0 {
        Some((Seq::empty(), p))
    } else {
        match dec_op(s, p) {
            Some((o, q)) => prepend(seq![o], dec_ops(s, q, (n - 1) as nat)),
            None => None,
        }
    }
}

/// Reads operations from position `p` to the end of `s`.
pub open spec fn dec_stream(s: Seq<u8>, p: int) -> Option<Seq<TraceOp>>
    decreases s.len() - p,
{
    if p < 0 || p >= s.len() {
        Some(Seq::empty())
    } else {
        match dec_op(s, p) {
            Some((o, q)) => if p < q <= s.len() {
                match dec_stream(s, q) {
                    Some(os) => Some(seq![o] + os),
                    None => None,
                }
            } else {
                None
            },
            None => None,
        }
    }
}

/// A finished trace on the wire: the digest as a length-prefixed UTF-8
/// string, then the operations as a length-prefixed sequence.
pub open spec fn enc_trace_data(d: TraceDataView) -> Seq<u8> {
    let b = encode_utf8(d.sha256);
    enc_field(Kind::U64, b.len() as int) + b + enc_field(Kind::U64, d.trace.len() as int) + enc_ops(
        d.trace,
    )
}

/// The trace data that `s` starts with, if any.
pub open spec fn dec_trace_data(s: Seq<u8>) -> Option<TraceDataView> {
    match dec_field(Kind::U64, s, 0) {
        Some((l, q)) => if q + l <= s.len() && valid_utf8(s.subrange(q, q + l)) {
            match dec_field(Kind::U64, s, q + l) {
                Some((n, r)) => match dec_ops(s, r, n as nat) {
                    Some((ops, _)) => Some(
                        TraceDataView { sha256: decode_utf8(s.subrange(q, q + l)), trace: ops },
                    ),
                    None => None,
                },
                None => None,
            }
        } else {
            None
        },
        None => None,
    }
}

/// What the trace data of a trace file holds: the lengths fit the wire.
pub open spec fn well_formed(d: TraceDataView) -> bool {
    &&& encode_utf8(d.sha256).len() <= u64::MAX
    &&& d.trace.len() <= u64::MAX
}

proof fn lemma_enc_ops_front(ops: Seq<TraceOp>)
    requires
        ops.len() > 0,
    ensures
        enc_ops(ops) == enc_op(ops[0]) + enc_ops(ops.drop_first()),
    decreases ops.len(),
{
    if ops.len() == 1 {
        assert(ops.drop_last() =~= Seq::<TraceOp>::empty());
        assert(ops.drop_first() =~= Seq::<TraceOp>::empty());
        assert(enc_ops(ops) =~= enc_op(ops[0]) + enc_ops(ops.drop_first()));
    } else {
        lemma_enc_ops_front(ops.drop_last());
        assert(ops.drop_last().drop_first() =~= ops.drop_first().drop_last());
        assert(ops.drop_first().last() == ops.last());
        assert(enc_ops(ops) =~= enc_op(ops[0]) + enc_ops(ops.drop_first()));
    }
}

proof fn lemma_op_nonempty(op: TraceOp)
    ensures
        enc_op(op).len() >= 1,
{
    lemma_p128_values();
    lemma_enc_uvar_len(field_code(Kind::U32, op_tag(op)), 5);
}

/// Encoded operations read back as written, counted.
pub proof fn lemma_ops_round_trip(ops: Seq<TraceOp>, s: Seq<u8>, p: int)
    requires
        0 <= p,
        p + enc_ops(ops).len() <= s.len(),
        s.subrange(p, p + enc_ops(ops).len()) == enc_ops(ops),
    ensures
        dec_ops(s, p, ops.len()) == Some((ops, p + enc_ops(ops).len())),
    decreases ops.len(),
{
    if ops.len() > 0 {
        lemma_enc_ops_front(ops);
        let a = enc_op(ops[0]);
        let b = enc_ops(ops.drop_first());
        lemma_split(s, p, a, b);
        lemma_op_round_trip(ops[0], s, p);
        lemma_ops_round_trip(ops.drop_first(), s, p + a.len());
        assert(seq![ops[0]] + ops.drop_first() =~= ops);
    }
}

/// Encoded operations back to back read back as written, up to the end.
pub proof fn lemma_stream_round_trip(ops: Seq<TraceOp>, s: Seq<u8>, p: int)
    requires
        0 <= p,
        p + enc_ops(ops).len() == s.len(),
        s.subrange(p, s.len() as int) == enc_ops(ops),
    ensures
        dec_stream(s, p) == Some(ops),
    decreases ops.len(),
{
    if ops.len() > 0 {
        lemma_enc_ops_front(ops);
        let a = enc_op(ops[0]);
        let b = enc_ops(ops.drop_first());
        lemma_split(s, p, a, b);
        lemma_op_round_trip(ops[0], s, p);
        lemma_op_nonempty(ops[0]);
        lemma_stream_round_trip(ops.drop_first(), s, p + a.len());
        assert(seq![ops[0]] + ops.drop_first() =~= ops);
    } else {
        assert(p == s.len());
    }
}

/// Streaming: operations encoded one at a time and appended read back, up
/// to the end, as the same sequence.
pub proof fn lemma_stream_codec(ops: Seq<TraceOp>)
    ensures
        dec_stream(enc_ops(ops), 0) == Some(ops),
{
    let s = enc_ops(ops);
    assert(s.subrange(0, s.len() as int) =~= s);
    lemma_stream_round_trip(ops, s, 0);
}

/// Serialization round trip: a well-formed trace reads back as itself.
#[verifier::rlimit(60)]
pub proof fn lemma_trace_data_round_trip(d: TraceDataView)
    requires
        well_formed(d),
    ensures
        dec_trace_data(enc_trace_data(d)) == Some(d),
{
    let s = enc_trace_data(d);
    let b = encode_utf8(d.sha256);
    let f1 = enc_field(Kind::U64, b.len() as int);
    let f2 = enc_field(Kind::U64, d.trace.len() as int);
    let e = enc_ops(d.trace);
    let q = f1.len() as int;
    let l = b.len() as int;
    let r = q + l + f2.len();
    assert(s =~= f1 + (b + (f2 + e)));
    assert(s.subrange(0, s.len() as int) =~= s);
    assert(dec_field(Kind::U64, s, 0) == Some((l, q))) by {
        lemma_split(s, 0, f1, b + (f2 + e));
        lemma_field_round_trip(Kind::U64, l, s, 0);
    }
    assert(s.subrange(q, q + l) == b) by {
        lemma_split(s, 0, f1, b + (f2 + e));
        lemma_split(s, q, b, f2 + e);
    }
    assert(dec_field(Kind::U64, s, q + l) == Some((d.trace.len() as int, r))) by {
        lemma_split(s, 0, f1, b + (f2 + e));
        lemma_split(s, q, b, f2 + e);
        lemma_split(s, q + l, f2, e);
        lemma_field_round_trip(Kind::U64, d.trace.len() as int, s, q + l);
    }
    assert(dec_ops(s, r, d.trace.len()) == Some((d.trace, r + e.len()))) by {
        lemma_split(s, 0, f1, b + (f2 + e));
        lemma_split(s, q, b, f2 + e);
        lemma_split(s, q + l, f2, e);
        lemma_ops_round_trip(d.trace, s, r);
    }
    vstd::utf8::encode_utf8_valid_utf8(d.sha256);
    vstd::utf8::encode_utf8_decode_utf8(d.sha256);
}

/// Why a trace could not be read.
#[derive(Debug, PartialEq, Eq, Structural, Clone, Copy)]
pub enum TraceError {
    /// The bytes do not start with an encoded trace.
    Malformed,
    /// The trace was recorded from another module than the one presented.
    DigestMismatch,
}

/// Relies on `String::from_utf8`: the string that the bytes encode, exactly
/// when they are valid UTF-8.
#[verifier::external_body]
fn string_from_utf8(bytes: Vec<u8>) -> (r: Option<String>)
    ensures
        match r {
            Some(s) => valid_utf8(bytes@) && s@ == decode_utf8(bytes@),
            None => !valid_utf8(bytes@),
        },
{
    String::from_utf8(bytes).ok()
}

/// Appends the operations back to back.
pub fn encode_trace_ops(ops: &Vec<TraceOp>, out: &mut Vec<u8>)
    ensures
        final(out)@ == old(out)@ + enc_ops(ops@),
{
    let ghost start = out@;
    let mut i: usize = 0;
    proof {
        assert(ops@.take(0) =~= Seq::<TraceOp>::empty());
        assert(out@ =~= start + enc_ops(ops@.take(0)));
    }
    while i < ops.len()
        invariant
            i <= ops.len(),
            out@ == start + enc_ops(ops@.take(i as int)),
        decreases ops.len() - i,
    {
        encode_trace_op(&ops[i], out);
        proof {
            assert(ops@.take(i + 1).drop_last() =~= ops@.take(i as int));
            assert(out@ =~= start + enc_ops(ops@.take(i + 1)));
        }
        i = i + 1;
    }
    proof {
        assert(ops@.take(i as int) =~= ops@);
    }
}

/// Reads `n` operations one after the other from position `p`.
fn decode_trace_ops(buf: &[u8], p: usize, n: u64) -> (r: Option<(Vec<TraceOp>, usize)>)
    ensures
        match dec_ops(buf@, p as int, n as nat) {
            Some((ops, q)) => r matches Some((v, q2)) && v@ == ops && q2 as int == q,
            None => r is None,
        },
{
    let mut ops: Vec<TraceOp> = Vec::new();
    let mut pos: usize = p;
    let mut i: u64 = 0;
    proof {
        assert(ops@ + Seq::empty() =~= ops@);
    }
    while i < n
        invariant
            i <= n,
            dec_ops(buf@, p as int, n as nat) == prepend(ops@, dec_ops(buf@, pos as int, (n - i) as nat)),
        decreases n - i,
    {
        match decode_trace_op(buf, pos) {
            Some((o, q)) => {
                let ghost before = ops@;
                ops.push(o);
                proof {
                    match dec_ops(buf@, q as int, (n - i - 1) as nat) {
                        Some((ws, _)) => {
                            assert(before + (seq![o] + ws) =~= ops@ + ws);
                        },
                        None => {},
                    }
                }
                pos = q;
            },
            None => {
                return None;
            },
        }
        i = i + 1;
    }
    proof {
        assert(ops@ + Seq::empty() =~= ops@);
    }
    Some((ops, pos))
}

pub open spec fn prepend_all(vs: Seq<TraceOp>, r: Option<Seq<TraceOp>>) -> Option<Seq<TraceOp>> {
    match r {
        Some(ws) => Some(vs + ws),
        None => None,
    }
}

/// Reads the records of an intermediate trace file: operations back to
/// back up to the end.
pub fn decode_trace_stream(buf: &Vec<u8>) -> (r: Option<Vec<TraceOp>>)
    ensures
        match dec_stream(buf@, 0) {
            Some(ops) => r matches Some(v) && v@ == ops,
            None => r is None,
        },
{
    let mut ops: Vec<TraceOp> = Vec::new();
    let mut pos: usize = 0;
    proof {
        if let Some(ws) = dec_stream(buf@, 0) {
            assert(ops@ + ws =~= ws);
        }
    }
    while pos < buf.len()
        invariant
            pos <= buf.len(),
            dec_stream(buf@, 0) == prepend_all(ops@, dec_stream(buf@, pos as int)),
        decreases buf.len() - pos,
    {
        match decode_trace_op(buf.as_slice(), pos) {
            Some((o, q)) => {
                proof {
                    lemma_dec_op_advances(buf@, pos as int);
                }
                let ghost before = ops@;
                ops.push(o);
                proof {
                    match dec_stream(buf@, q as int) {
                        Some(ws) => {
                            assert(before + (seq![o] + ws) =~= ops@ + ws);
                        },
                        None => {},
                    }
                }
                pos = q;
            },
            None => {
                return None;
            },
        }
    }
    proof {
        assert(ops@ + Seq::empty() =~= ops@);
    }
    Some(ops)
}

/// An operation read at `p` ends after `p` and within `s`.
proof fn lemma_dec_op_advances(s: Seq<u8>, p: int)
    ensures
        dec_op(s, p) matches Some((o, q)) ==> p < q <= s.len(),
{
    lemma_dec_field_advances(Kind::U32, s, p);
    if let Some((t, q)) = dec_field(Kind::U32, s, p) {
        if t == 0 || t == 1 {
            lemma_dec_fields_advances(access_kinds(), 0, s, q);
        } else if t == 2 {
            lemma_dec_fields_advances(call_head_kinds(), 0, s, q);
            if let Some((vs, r)) = dec_fields(call_head_kinds(), s, q) {
                lemma_dec_field_advances(Kind::U32, s, r);
                if let Some((ct, r1)) = dec_field(Kind::U32, s, r) {
                    lemma_dec_fields_advances(call_kinds(ct), 0, s, r1);
                }
            }
        }
    }
}

proof fn lemma_dec_field_advances(k: Kind, s: Seq<u8>, p: int)
    ensures
        dec_field(k, s, p) matches Some((v, q)) ==> p < q <= s.len(),
{
    lemma_dec_uvar_bound(s, p, kind_max_bytes(k));
}

proof fn lemma_dec_fields_advances(ks: Seq<Kind>, i: int, s: Seq<u8>, p: int)
    ensures
        dec_fields_from(ks, i, s, p) matches Some((vs, q)) ==> p <= q && (p < s.len() ==> q
            <= s.len()) && (p >= s.len() ==> q == p || q <= s.len()),
    decreases ks.len() - i,
{
    if 0 <= i < ks.len() {
        lemma_dec_field_advances(ks[i], s, p);
        if let Some((v, q)) = dec_field(ks[i], s, p) {
            lemma_dec_fields_advances(ks, i + 1, s, q);
        }
    }
}

impl TraceData {
    /// Encodes the trace for its file.
    pub fn serialize(&self) -> (r: Vec<u8>)
        ensures
            r@ == enc_trace_data(self@),
    {
        let mut out: Vec<u8> = Vec::new();
        let b = self.sha256.as_str().as_bytes();
        put_field(&mut out, Kind::U64, b.len() as i128);
        let ghost head = out@;
        let mut i: usize = 0;
        while i < b.len()
            invariant
                i <= b@.len(),
                out@ == head + b@.take(i as int),
            decreases b@.len() - i,
        {
            out.push(b[i]);
            proof {
                assert(b@.take(i + 1) =~= b@.take(i as int).push(b@[i as int]));
            }
            i = i + 1;
        }
        proof {
            assert(b@.take(i as int) =~= b@);
        }
        put_field(&mut out, Kind::U64, self.trace.len() as i128);
        encode_trace_ops(&self.trace, &mut out);
        proof {
            assert(out@ =~= enc_trace_data(self@));
        }
        out
    }

    /// Decodes a trace file. With `Some(digest)`, a trace whose recorded
    /// digest differs from it is refused.
    pub fn deserialize(ser: &Vec<u8>, sha256: Option<&str>) -> (r: Result<TraceData, TraceError>)
        ensures
            match dec_trace_data(ser@) {
                None => r == Err::<TraceData, TraceError>(TraceError::Malformed),
                Some(d) => if sha256 matches Some(x) && x@ != d.sha256 {
                    r == Err::<TraceData, TraceError>(TraceError::DigestMismatch)
                } else {
                    r matches Ok(t) && t@ == d
                },
            },
    {
        let buf = ser.as_slice();
        proof {
            lemma_dec_field_advances(Kind::U64, buf@, 0);
        }
        let (l, q) = match get_field(buf, 0, Kind::U64) {
            Some(x) => x,
            None => {
                return Err(TraceError::Malformed);
            },
        };
        if l > (buf.len() - q) as i128 {
            return Err(TraceError::Malformed);
        }
        let end: usize = q + l as usize;
        let mut sb: Vec<u8> = Vec::new();
        let mut i: usize = q;
        while i < end
            invariant
                q <= i <= end <= buf@.len(),
                sb@ == buf@.subrange(q as int, i as int),
            decreases end - i,
        {
            sb.push(buf[i]);
            proof {
                assert(buf@.subrange(q as int, i + 1) =~= buf@.subrange(q as int, i as int).push(
                    buf@[i as int],
                ));
            }
            i = i + 1;
        }
        let digest = match string_from_utf8(sb) {
            Some(s) => s,
            None => {
                return Err(TraceError::Malformed);
            },
        };
        let (n, r) = match get_field(buf, end, Kind::U64) {
            Some(x) => x,
            None => {
                return Err(TraceError::Malformed);
            },
        };
        let (trace, _) = match decode_trace_ops(buf, r, n as u64) {
            Some(x) => x,
            None => {
                return Err(TraceError::Malformed);
            },
        };
        if let Some(x) = sha256 {
            let expected: String = x.to_owned();
            if !(expected == digest) {
                return Err(TraceError::DigestMismatch);
            }
        }
        Ok(TraceData { sha256: digest, trace })
    }
}

} // verus!
