//! Columnar pre-processing: transpose record-oriented data so that each
//! field is contiguous, exposing per-field patterns.
//!
//! Input: N records of R bytes each (row-major).
//! Output: R columns of N bytes each (column-major).
use vstd::prelude::*;
use crate::platter::spec_num_tracks;

verus! {

/// Byte `i` of `data` padded with zeros.
pub open spec fn padded_byte(data: Seq<u8>, i: int) -> u8 {
    if 0 <= i < data.len() { data[i] } else { 0 }
}

/// Column-major transpose of `data` read as rows of `stride` bytes,
/// zero-padded to full rows.
pub open spec fn spec_columnar(data: Seq<u8>, stride: int) -> Seq<u8> {
    if stride == 0 || data.len() == 0 {
        data
    } else {
        let rows = spec_num_tracks(data.len() as int, stride);
        Seq::new((rows * stride) as nat, |k: int| padded_byte(data, (k % rows) * stride + k / rows))
    }
}

/// Inverse transpose: `data` holds `stride` columns of `rows` bytes each,
/// where `rows` is the number of rows that `original_len` bytes fill; the
/// result is the first `original_len` bytes read back row by row.
pub open spec fn spec_uncolumnar(data: Seq<u8>, stride: int, original_len: int) -> Seq<u8> {
    if stride == 0 || data.len() == 0 {
        data
    } else {
        let rows = spec_num_tracks(original_len, stride);
        Seq::new(original_len as nat, |k: int| padded_byte(data, (k % stride) * rows + k / stride))
    }
}

proof fn lemma_div_mod_unique(x: int, d: int, q: int, r: int)
    requires d > 0, 0 <= r < d, x == q * d + r,
    ensures x / d == q, x % d == r,
{
    vstd::arithmetic::div_mod::lemma_fundamental_div_mod_converse(x, d, q, r);
}

/// Transpose data from row-major to column-major.
/// `stride` is the record size in bytes. Pads to a full matrix if needed.
pub fn columnar_transform(data: &[u8], stride: usize) -> (out: Vec<u8>)
    requires data.len() + stride <= usize::MAX,
    ensures out@ == spec_columnar(data@, stride as int),
{
    if stride == 0 || data.len() == 0 {
        return crate::bytes::copy_bytes(data);
    }
    let rows = (data.len() - 1 + stride) / stride;
    proof {
        crate::platter::lemma_ceil_div(data.len() as int, stride as int);
    }
    let total = rows * stride;
    let ghost spec_out = spec_columnar(data@, stride as int);
    let mut out: Vec<u8> = Vec::with_capacity(total);
    let mut col: usize = 0;
    while col < stride
        invariant
            rows > 0, stride > 0,
            rows == spec_num_tracks(data.len() as int, stride as int),
            total == rows * stride,
            total <= usize::MAX,
            spec_out == spec_columnar(data@, stride as int),
            spec_out.len() == total,
            col <= stride,
            out.len() == col * rows,
            forall|k: int| 0 <= k < out.len() ==> #[trigger] out[k] == spec_out[k],
        decreases stride - col,
    {
        let mut row: usize = 0;
        while row < rows
            invariant
                rows > 0, stride > 0,
                rows == spec_num_tracks(data.len() as int, stride as int),
                total == rows * stride,
                total <= usize::MAX,
                spec_out == spec_columnar(data@, stride as int),
                spec_out.len() == total,
                col < stride,
                row <= rows,
                out.len() == col * rows + row,
                forall|k: int| 0 <= k < out.len() ==> #[trigger] out[k] == spec_out[k],
            decreases rows - row,
        {
            proof {
                assert(row * stride + col < total) by (nonlinear_arith)
                    requires row < rows, col < stride, total == rows * stride;
                assert(col * rows + row < total) by (nonlinear_arith)
                    requires row < rows, col < stride, total == rows * stride;
                lemma_div_mod_unique(col * rows + row, rows as int, col as int, row as int);
                assert(spec_out[col * rows + row] == padded_byte(data@, row * stride + col));
            }
            let idx = row * stride + col;
            let b = if idx < data.len() { data[idx] } else { 0 };
            out.push(b);
            row += 1;
        }
        proof {
            assert((col + 1) * rows == col * rows + rows) by (nonlinear_arith);
        }
        col += 1;
    }
    proof {
        assert(stride * rows == rows * stride) by (nonlinear_arith);
        assert(out@ =~= spec_out);
    }
    out
}

/// Inverse columnar transform (column-major back to row-major).
pub fn columnar_untransform(data: &[u8], stride: usize, original_len: usize) -> (out: Vec<u8>)
    requires original_len + stride <= usize::MAX,
    ensures out@ == spec_uncolumnar(data@, stride as int, original_len as int),
{
    if stride == 0 || data.len() == 0 {
        return crate::bytes::copy_bytes(data);
    }
    let rows: usize = if original_len == 0 { 0 } else { (original_len - 1 + stride) / stride };
    proof {
        if original_len > 0 {
            crate::platter::lemma_ceil_div(original_len as int, stride as int);
        }
    }
    let ghost spec_out = spec_uncolumnar(data@, stride as int, original_len as int);
    let mut out: Vec<u8> = Vec::with_capacity(original_len);
    let mut k: usize = 0;
    while k < original_len
        invariant
            stride > 0,
            data.len() > 0,
            rows == spec_num_tracks(original_len as int, stride as int),
            rows * stride <= original_len + stride,
            original_len + stride <= usize::MAX,
            original_len > 0 ==> rows * stride >= original_len,
            spec_out == spec_uncolumnar(data@, stride as int, original_len as int),
            k <= original_len,
            out.len() == k,
            forall|i: int| 0 <= i < k ==> #[trigger] out[i] == spec_out[i],
        decreases original_len - k,
    {
        let col = k % stride;
        let row = k / stride;
        proof {
            vstd::arithmetic::div_mod::lemma_fundamental_div_mod(k as int, stride as int);
            assert(row < rows) by (nonlinear_arith)
                requires k == stride * row + col, 0 <= col < stride, k < original_len,
                    rows * stride >= original_len, stride > 0;
            assert(col * rows + row < rows * stride) by (nonlinear_arith)
                requires col < stride, row < rows;
        }
        let idx = col * rows + row;
        let b = if idx < data.len() { data[idx] } else { 0 };
        out.push(b);
        k += 1;
    }
    proof {
        assert(out@ =~= spec_out);
    }
    out
}

/// Transposing and then transposing back with the same stride and the
/// original length gives back the original data.
pub proof fn lemma_columnar_roundtrip(data: Seq<u8>, stride: int)
    requires stride >= 0,
    ensures spec_uncolumnar(spec_columnar(data, stride), stride, data.len() as int) == data,
{
    if stride == 0 || data.len() == 0 {
        return;
    }
    let rows = spec_num_tracks(data.len() as int, stride);
    crate::platter::lemma_ceil_div(data.len() as int, stride);
    let t = spec_columnar(data, stride);
    assert(rows * stride >= data.len());
    assert(t.len() > 0) by (nonlinear_arith) requires rows >= 1, stride >= 1, t.len() == rows * stride;
    let back = spec_uncolumnar(t, stride, data.len() as int);
    assert forall|k: int| 0 <= k < data.len() implies #[trigger] back[k] == data[k] by {
        let col = k % stride;
        let row = k / stride;
        vstd::arithmetic::div_mod::lemma_fundamental_div_mod(k, stride);
        assert(0 <= col < stride);
        assert(0 <= row < rows) by (nonlinear_arith)
            requires k == stride * row + col, 0 <= col < stride, k < data.len(), rows * stride >= data.len(),
                stride > 0, k >= 0;
        let m = col * rows + row;
        assert(0 <= m < rows * stride) by (nonlinear_arith)
            requires m == col * rows + row, 0 <= col < stride, 0 <= row < rows;
        lemma_div_mod_unique(m, rows, col, row);
        assert(t[m] == padded_byte(data, (m % rows) * stride + m / rows));
        assert(row * stride + col == k) by (nonlinear_arith)
            requires k == stride * row + col;
        assert((m % rows) * stride + m / rows == k);
    }
    assert(back =~= data);
}

} // verus!
