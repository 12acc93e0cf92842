//! Rows and pixels of images held as bytes.

use vstd::prelude::*;
use vstd::slice::slice_subrange;

verus! {

/// The longest side that images are resampled to, and exports from as well. Resampling places pixels in single precision, which tells
/// the halves of pixels apart up to here, with room for the rounding.
pub const MAX_SIDE: u32 = 2097152;

/// The first `n` rows of `len` bytes, the first at `start` and each `stride` bytes behind the one
/// before, one after the other.
pub open spec fn rows(data: Seq<u8>, start: int, stride: int, len: int, n: nat) -> Seq<u8>
    decreases n,
{
    if n == 0 {
        seq![]
    } else {
        let at = start + (n - 1) * stride;
        rows(data, start, stride, len, (n - 1) as nat) + data.subrange(at, at + len)
    }
}

/// The rows lie within the data.
pub open spec fn rows_fit(size: int, start: int, stride: int, len: int, n: nat) -> bool {
    n > 0 ==> start + (n - 1) * stride + len <= size
}

/// Rows of `len` bytes are `n * len` bytes.
pub proof fn law_rows_have_their_length(data: Seq<u8>, start: int, stride: int, len: int, n: nat)
    requires
        0 <= start,
        0 <= stride,
        0 <= len,
        rows_fit(data.len() as int, start, stride, len, n),
    ensures
        rows(data, start, stride, len, n).len() == n * len,
    decreases n,
{
    if n > 0 {
        assert((n - 1) * stride >= 0 && (n - 2) * stride == (n - 1) * stride - stride && n * len == (n
            - 1) * len + len) by (nonlinear_arith)
            requires
                n > 0,
                stride >= 0,
        ;
        law_rows_have_their_length(data, start, stride, len, (n - 1) as nat);
    } else {
        assert(0 * len == 0);
    }
}

/// Rows that lie one behind the other are the data as it stands.
pub proof fn law_contiguous_rows_are_kept(data: Seq<u8>, len: int, n: nat)
    requires
        0 <= len,
        n * len <= data.len(),
    ensures
        rows(data, 0, len, len, n) == data.take(n * len),
    decreases n,
{
    if n > 0 {
        assert(n * len == (n - 1) * len + len && (n - 1) * len >= 0) by (nonlinear_arith)
            requires
                n > 0,
                len >= 0,
        ;
        law_contiguous_rows_are_kept(data, len, (n - 1) as nat);
        assert(data.take((n - 1) * len) + data.subrange((n - 1) * len, (n - 1) * len + len)
            =~= data.take(n * len));
    } else {
        assert(data.take(0 * len) =~= seq![]);
    }
}

/// Appends a part of `data` to `out`.
fn push_part(out: &mut Vec<u8>, data: &[u8], from: usize, to: usize)
    requires
        from <= to <= data@.len(),
    ensures
        final(out)@ == old(out)@ + data@.subrange(from as int, to as int),
{
    let part = slice_subrange(data, from, to);
    out.extend_from_slice(part);
}

/// The first `n` rows of `len` bytes, the first at `start` and each `stride` bytes behind the one
/// before.
pub fn take_rows(data: &[u8], start: usize, stride: usize, len: usize, n: usize) -> (r: Vec<u8>)
    requires
        rows_fit(data@.len() as int, start as int, stride as int, len as int, n as nat),
    ensures
        r@ == rows(data@, start as int, stride as int, len as int, n as nat),
{
    let mut out: Vec<u8> = Vec::new();
    let size: usize = data.len();
    let mut k: usize = 0;
    let mut at: usize = start;
    while k < n
        invariant
            k <= n,
            size == data@.len(),
            k < n ==> at == start + k * stride,
            n > 0 ==> start + (n - 1) * stride + len <= size,
            out@ == rows(data@, start as int, stride as int, len as int, k as nat),
        decreases n - k,
    {
        assert(k * stride <= (n - 1) * stride && (k + 1) * stride == k * stride + stride && (k + 1 < n
            ==> (k + 1) * stride <= (n - 1) * stride)) by (nonlinear_arith)
            requires
                0 <= k < n,
                stride >= 0,
        ;
        push_part(&mut out, data, at, at + len);
        if k + 1 < n {
            at = at + stride;
        }
        k = k + 1;
    }
    out
}

/// Byte `k` of row `y` is the byte that lies `k` behind where the row begins.
pub proof fn law_rows_hold_their_bytes(data: Seq<u8>, start: int, stride: int, len: int, n: nat, y: int, k: int)
    requires
        0 <= start,
        0 <= stride,
        0 <= len,
        rows_fit(data.len() as int, start, stride, len, n),
        0 <= y < n,
        0 <= k < len,
    ensures
        rows(data, start, stride, len, n)[y * len + k] == data[start + y * stride + k],
    decreases n,
{
    let m = (n - 1) as nat;
    assert((n - 1) * stride >= 0 && (n - 2) * stride == (n - 1) * stride - stride && y * len >= 0) by (nonlinear_arith)
        requires
            n > 0,
            stride >= 0,
            y >= 0,
            len >= 0,
    ;
    law_rows_have_their_length(data, start, stride, len, m);
    let before = rows(data, start, stride, len, m);
    let at = start + (n - 1) * stride;
    if y < n - 1 {
        law_rows_hold_their_bytes(data, start, stride, len, m, y, k);
        assert(y * len + k < m * len) by (nonlinear_arith)
            requires
                y + 1 <= m,
                0 <= k < len,
        ;
    } else {
        assert(data.subrange(at, at + len)[k] == data[at + k]);
    }
}

} // verus!
