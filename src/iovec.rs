//! Scatter/gather vectors as a guest lays them out in its linear memory: an
//! array of `{ base: u32, len: u32 }` pairs, little-endian.
use vstd::prelude::*;

verus! {

/// One guest iovec: a guest address and a length.
#[derive(Debug, PartialEq, Eq, Structural, Clone, Copy)]
pub struct WasmIovec {
    pub base: u32,
    pub len: u32,
}

/// The little-endian `u32` at position `p` of `b`.
pub open spec fn le_u32(b: Seq<u8>, p: int) -> u32 {
    (b[p] as int + 256 * b[p + 1] as int + 65536 * b[p + 2] as int + 16777216 * b[p + 3] as int) as u32
}

/// The `i`-th iovec of the array that starts at position 0 of `mem`.
pub open spec fn iovec_at(mem: Seq<u8>, i: int) -> WasmIovec {
    WasmIovec { base: le_u32(mem, 8 * i), len: le_u32(mem, 8 * i + 4) }
}

fn read_le_u32(b: &[u8], p: usize) -> (r: u32)
    requires
        p + 4 <= b@.len(),
    ensures
        r == le_u32(b@, p as int),
{
    let v: u64 = b[p] as u64 + 256 * (b[p + 1] as u64) + 65536 * (b[p + 2] as u64) + 16777216 * (
    b[p + 3] as u64);
    v as u32
}

/// Reads `iovcnt` iovecs from the guest bytes `mem` that start at the
/// array; `mem` must hold all of them.
pub fn wali_iovecs(mem: &[u8], iovcnt: u32) -> (r: Vec<WasmIovec>)
    requires
        8 * iovcnt <= mem@.len(),
    ensures
        r@.len() == iovcnt,
        forall|i: int| 0 <= i < iovcnt ==> r@[i] == iovec_at(mem@, i),
{
    let mut r: Vec<WasmIovec> = Vec::new();
    let n = mem.len();
    let mut i: u32 = 0;
    while i < iovcnt
        invariant
            n == mem@.len(),
            i <= iovcnt,
            8 * iovcnt <= mem@.len(),
            r@.len() == i,
            forall|t: int| 0 <= t < i ==> r@[t] == iovec_at(mem@, t),
        decreases iovcnt - i,
    {
        assert(8 * i + 8 <= 8 * iovcnt) by (nonlinear_arith)
            requires
                i < iovcnt,
        ;
        let p: usize = 8 * (i as usize);
        let base = read_le_u32(mem, p);
        let len = read_le_u32(mem, p + 4);
        r.push(WasmIovec { base, len });
        i = i + 1;
    }
    r
}

} // verus!
