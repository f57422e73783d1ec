//! Video (PLTV) kernels: the frame structure of a group of pictures,
//! block motion search and compensation, residual planes, and the byte
//! layout of the container and its frames. The planes themselves are
//! compressed with the lossy image codec.
use vstd::prelude::*;
use crate::bytes::{le16, le32, u16_bytes, u32_bytes, push_u16, push_u32, push_bytes, read_u16, read_u32, copy_range};

verus! {

/// Video settings: size, frame rate, quality of the planes and the number
/// of frames between intra frames.
#[derive(Debug, Clone, Copy, PartialEq, Eq, Structural)]
pub struct VideoParams {
    pub width: u16,
    pub height: u16,
    pub fps: u8,
    pub quality: u8,
    pub gop_size: u16,
}

/// `v` clamped to `0..=255`.
pub open spec fn clamp_byte(v: int) -> u8 {
    if v < 0 { 0 } else if v > 255 { 255 } else { v as u8 }
}

/// The residual of `a` against the prediction `b`, offset by 128.
pub open spec fn spec_residual(a: Seq<u8>, b: Seq<u8>) -> Seq<u8> {
    let n = if a.len() < b.len() { a.len() } else { b.len() };
    Seq::new(n, |i: int| clamp_byte(a[i] - b[i] + 128))
}

/// A prediction `p` corrected by the residual `d`.
pub open spec fn spec_add_residual(d: Seq<u8>, p: Seq<u8>) -> Seq<u8> {
    let n = if d.len() < p.len() { d.len() } else { p.len() };
    Seq::new(n, |i: int| clamp_byte(p[i] + d[i] - 128))
}

/// Residual plane: `clamp(a - b + 128)` byte by byte, over the shorter
/// of the two planes.
pub fn residual(a: &[u8], b: &[u8]) -> (r: Vec<u8>)
    ensures r@ == spec_residual(a@, b@),
{
    let n = if a.len() < b.len() { a.len() } else { b.len() };
    let mut out: Vec<u8> = Vec::new();
    let mut i: usize = 0;
    while i < n
        invariant i <= n, n <= a.len(), n <= b.len(), n == spec_residual(a@, b@).len(),
            out@ =~= spec_residual(a@, b@).take(i as int),
        decreases n - i,
    {
        let v: i16 = a[i] as i16 - b[i] as i16 + 128;
        let c: u8 = if v < 0 { 0 } else if v > 255 { 255 } else { v as u8 };
        out.push(c);
        i += 1;
    }
    proof { assert(spec_residual(a@, b@).take(n as int) =~= spec_residual(a@, b@)); }
    out
}

/// Reconstructed plane: `clamp(p + d - 128)` byte by byte, over the
/// shorter of the residual `d` and the prediction `p`.
pub fn add_residual(d: &[u8], p: &[u8]) -> (r: Vec<u8>)
    ensures r@ == spec_add_residual(d@, p@),
{
    let n = if d.len() < p.len() { d.len() } else { p.len() };
    let mut out: Vec<u8> = Vec::new();
    let mut i: usize = 0;
    while i < n
        invariant i <= n, n <= d.len(), n <= p.len(), n == spec_add_residual(d@, p@).len(),
            out@ =~= spec_add_residual(d@, p@).take(i as int),
        decreases n - i,
    {
        let v: i16 = p[i] as i16 + d[i] as i16 - 128;
        let c: u8 = if v < 0 { 0 } else if v > 255 { 255 } else { v as u8 };
        out.push(c);
        i += 1;
    }
    proof { assert(spec_add_residual(d@, p@).take(n as int) =~= spec_add_residual(d@, p@)); }
    out
}

/// Correcting a prediction by a residual restores the frame: where every
/// pixel of `a` lies within -128..=127 of its prediction `b`, adding the
/// residual of `a` against `b` back onto `b` gives `a`.
pub proof fn law_residual_restores(a: Seq<u8>, b: Seq<u8>)
    requires
        a.len() == b.len(),
        forall|i: int| 0 <= i < a.len() ==> -128 <= #[trigger] a[i] - b[i] <= 127,
    ensures
        spec_add_residual(spec_residual(a, b), b) == a,
{
    assert(spec_add_residual(spec_residual(a, b), b) =~= a);
}

/// `|x - y|`.
pub open spec fn abs_diff(x: int, y: int) -> int {
    if x < y { y - x } else { x - y }
}

/// Sum of absolute differences of the first `n` bytes of `a` and `b`.
pub open spec fn spec_sad(a: Seq<u8>, b: Seq<u8>, n: int) -> int
    decreases n,
{
    if n <= 0 { 0 } else { spec_sad(a, b, n - 1) + abs_diff(a[n - 1] as int, b[n - 1] as int) }
}

proof fn lemma_sad_bound(a: Seq<u8>, b: Seq<u8>, n: int)
    requires n >= 0,
    ensures 0 <= spec_sad(a, b, n) <= 255 * n,
    decreases n,
{
    if n > 0 { lemma_sad_bound(a, b, n - 1); }
}

/// Sum of absolute differences of two planes over the shorter one.
pub fn plane_sad(a: &[u8], b: &[u8]) -> (r: u64)
    requires 255 * (if a@.len() < b@.len() { a@.len() as int } else { b@.len() as int }) <= u64::MAX,
    ensures r == spec_sad(a@, b@, if a@.len() < b@.len() { a@.len() as int } else { b@.len() as int }),
{
    let n = if a.len() < b.len() { a.len() } else { b.len() };
    let mut s: u64 = 0;
    let mut i: usize = 0;
    while i < n
        invariant i <= n, n <= a.len(), n <= b.len(), s == spec_sad(a@, b@, i as int), 255 * n <= u64::MAX,
        decreases n - i,
    {
        proof { lemma_sad_bound(a@, b@, i + 1); }
        let x = a[i];
        let y = b[i];
        let d: u64 = if x < y { (y - x) as u64 } else { (x - y) as u64 };
        s = s + d;
        i += 1;
    }
    s
}

// ---------------------------------------------------------------- group of pictures

/// How the encoder stores frame `i` of `n` with `gop` frames per group:
/// 0 for an intra frame (first of each group), 2 for an odd frame whose
/// group is followed by another intra frame (it may look ahead), else 1.
pub open spec fn spec_frame_kind(i: int, gop: int, n: int) -> u8 {
    if i % gop == 0 { 0 }
    else if (i / gop + 1) * gop < n && i % 2 == 1 { 2 }
    else { 1 }
}

/// The frame kind of frame `i` of `n`.
pub fn frame_kind(i: usize, gop: u16, n: usize) -> (r: u8)
    requires gop > 0, i < n,
    ensures r == spec_frame_kind(i as int, gop as int, n as int),
{
    let g = gop as usize;
    if i % g == 0 {
        return 0;
    }
    let group = i / g;
    proof {
        assert(group * g <= i) by (nonlinear_arith) requires group == i / g, g > 0;
        assert((group + 1) * g <= i + g) by (nonlinear_arith) requires group * g <= i;
    }
    let base = group * g;
    proof { assert((group + 1) * g == base + g) by (nonlinear_arith) requires base == group * g; }
    if g < n - base && i % 2 == 1 { 2 } else { 1 }
}

/// The frame a look-ahead frame of a group may refer to instead of the
/// previous one: the first frame of the next group, or the last frame.
pub open spec fn spec_future_ref(i: int, gop: int, n: int) -> int {
    let next = (i / gop + 1) * gop;
    if next < n - 1 { next } else { n - 1 }
}

/// The index `spec_future_ref` names.
pub fn future_ref(i: usize, gop: u16, n: usize) -> (r: usize)
    requires gop > 0, n > 0, i < n,
    ensures r == spec_future_ref(i as int, gop as int, n as int),
{
    let g = gop as usize;
    let group = i / g;
    proof {
        assert(group * g <= i) by (nonlinear_arith) requires group == i / g, g > 0;
        assert((group + 1) * g <= i + g) by (nonlinear_arith) requires group * g <= i;
    }
    let base = group * g;
    proof { assert((group + 1) * g == base + g) by (nonlinear_arith) requires base == group * g; }
    if g + 1 < n - base { base + g } else { n - 1 }
}

/// For frame `i`, the first frame from `i` on that is not a look-ahead
/// frame (kind 2), or the last frame when there is none.
pub open spec fn spec_next_ref(kinds: Seq<u8>, i: int) -> int
    decreases kinds.len() - i,
{
    if i >= kinds.len() - 1 {
        kinds.len() - 1
    } else if kinds[i] != 2 {
        i
    } else {
        spec_next_ref(kinds, i + 1)
    }
}

/// The frame each frame may look ahead to, from the kinds of all frames.
pub fn next_refs(kinds: &[u8]) -> (r: Vec<usize>)
    ensures
        r@.len() == kinds@.len(),
        forall|i: int| 0 <= i < kinds@.len() ==> r@[i] as int == (if kinds@[i] != 2 { i } else { spec_next_ref(kinds@, i) }),
{
    let n = kinds.len();
    let mut out: Vec<usize> = Vec::new();
    if n == 0 {
        return out;
    }
    // fill from the back
    let mut rev: Vec<usize> = Vec::new();
    let mut last: usize = n - 1;
    let mut k: usize = n;
    while k > 0
        invariant
            k <= n, n == kinds@.len(), n > 0, rev@.len() == n - k, last < n,
            k < n ==> last as int == spec_next_ref(kinds@, k as int),
            k == n ==> last == n - 1,
            forall|j: int| 0 <= j < rev@.len() ==> #[trigger] rev@[j] as int
                == (if kinds@[n - 1 - j] != 2 { n - 1 - j } else { spec_next_ref(kinds@, n - 1 - j) }),
        decreases k,
    {
        let i = k - 1;
        if kinds[i] != 2 {
            last = i;
        }
        rev.push(last);
        k -= 1;
    }
    let mut j: usize = 0;
    while j < n
        invariant
            j <= n, n == kinds@.len(), rev@.len() == n, out@.len() == j,
            forall|q: int| 0 <= q < rev@.len() ==> #[trigger] rev@[q] as int
                == (if kinds@[n - 1 - q] != 2 { n - 1 - q } else { spec_next_ref(kinds@, n - 1 - q) }),
            forall|q: int| 0 <= q < j ==> #[trigger] out@[q] as int == (if kinds@[q] != 2 { q } else { spec_next_ref(kinds@, q) }),
        decreases n - j,
    {
        let v = rev[n - 1 - j];
        out.push(v);
        j += 1;
    }
    out
}

/// The last frame before `i` that is not a look-ahead frame, or frame 0.
pub open spec fn spec_past_ref(kinds: Seq<u8>, i: int) -> int
    decreases i,
{
    if i <= 0 { 0 } else if kinds[i - 1] != 2 { i - 1 } else { spec_past_ref(kinds, i - 1) }
}

/// The frame a look-ahead frame refers to when it looks back.
pub fn past_ref(kinds: &[u8], i: usize) -> (r: usize)
    requires i <= kinds@.len(),
    ensures r as int == spec_past_ref(kinds@, i as int),
{
    let mut j = i;
    while j > 0
        invariant j <= i <= kinds@.len(), spec_past_ref(kinds@, i as int) == spec_past_ref(kinds@, j as int),
        decreases j,
    {
        if kinds[j - 1] != 2 {
            return j - 1;
        }
        j -= 1;
    }
    0
}

// ---------------------------------------------------------------- motion compensation

/// The predicted luma byte at `(cx, cy)`: the reference byte the motion
/// vector of the block holding it points at, or 128 where the block has no
/// vector or the vector points outside the frame.
pub open spec fn mc_pixel(reference: Seq<u8>, mvs: Seq<(i8, i8)>, w: int, h: int, bs: int, bw: int, cx: int, cy: int) -> u8 {
    let bx = cx / bs;
    let by = cy / bs;
    let idx = by * bw + bx;
    if bx < bw && idx < mvs.len() {
        let rx = cx + mvs[idx].0;
        let ry = cy + mvs[idx].1;
        if 0 <= rx < w && 0 <= ry < h { reference[ry * w + rx] } else { 128 }
    } else {
        128
    }
}

/// The read that `mc_pixel` makes for `(cx, cy)`, if any, lies within a
/// reference of `len` bytes.
pub open spec fn mc_read_ok(len: int, mvs: Seq<(i8, i8)>, w: int, h: int, bs: int, bw: int, cx: int, cy: int) -> bool {
    let bx = cx / bs;
    let by = cy / bs;
    let idx = by * bw + bx;
    bx < bw && idx < mvs.len() && 0 <= cx + mvs[idx].0 < w && 0 <= cy + mvs[idx].1 < h
        ==> (cy + mvs[idx].1) * w + cx + mvs[idx].0 < len
}

/// Every read of the prediction lies within a reference of `len` bytes.
pub open spec fn mc_reads_ok(len: int, mvs: Seq<(i8, i8)>, w: int, h: int, bs: int, bw: int) -> bool {
    forall|cx: int, cy: int| 0 <= cx < w && 0 <= cy < h ==> #[trigger] mc_read_ok(len, mvs, w, h, bs, bw, cx, cy)
}

/// A reference covering the whole plane serves every read.
pub proof fn lemma_full_reference_reads_ok(len: int, mvs: Seq<(i8, i8)>, w: int, h: int, bs: int, bw: int)
    requires len >= w * h,
    ensures mc_reads_ok(len, mvs, w, h, bs, bw),
{
    assert forall|cx: int, cy: int| 0 <= cx < w && 0 <= cy < h implies #[trigger] mc_read_ok(len, mvs, w, h, bs, bw, cx, cy) by {
        let bx = cx / bs;
        let by = cy / bs;
        let idx = by * bw + bx;
        if bx < bw && idx < mvs.len() && 0 <= cx + mvs[idx].0 < w && 0 <= cy + mvs[idx].1 < h {
            lemma_row_major(cx + mvs[idx].0, cy + mvs[idx].1, w, h);
        }
    }
}

/// The motion-compensated prediction of a `w` by `h` plane, row by row.
pub open spec fn spec_motion_comp(reference: Seq<u8>, mvs: Seq<(i8, i8)>, w: int, h: int, bs: int, bw: int) -> Seq<u8> {
    Seq::new((w * h) as nat, |k: int| mc_pixel(reference, mvs, w, h, bs, bw, k % w, k / w))
}

proof fn lemma_row_major(cx: int, cy: int, w: int, h: int)
    requires 0 <= cx < w, 0 <= cy < h,
    ensures (cy * w + cx) % w == cx, (cy * w + cx) / w == cy, 0 <= cy * w + cx < w * h,
{
    vstd::arithmetic::div_mod::lemma_fundamental_div_mod_converse(cy * w + cx, w, cy, cx);
    assert(cy * w + cx < w * h) by (nonlinear_arith) requires 0 <= cx < w, 0 <= cy < h;
}

/// Predict a plane from `reference` by moving each `block_size` square
/// block (`bw` blocks per row, numbered row by row) by its motion vector;
/// bytes no vector reaches are 128.
pub fn apply_motion_compensation(reference: &[u8], mvs: &[(i8, i8)], w: usize, h: usize, block_size: usize, bw: usize) -> (r: Vec<u8>)
    requires
        w <= 65535, h <= 65535, 0 < block_size <= 65535, bw <= 65535,
        mc_reads_ok(reference@.len() as int, mvs@, w as int, h as int, block_size as int, bw as int),
    ensures r@ == spec_motion_comp(reference@, mvs@, w as int, h as int, block_size as int, bw as int),
{
    let mut out: Vec<u8> = Vec::new();
    let ghost target = spec_motion_comp(reference@, mvs@, w as int, h as int, block_size as int, bw as int);
    proof { assert((w * h) as int <= 65535 * 65535) by (nonlinear_arith) requires w <= 65535, h <= 65535; }
    let mut cy: usize = 0;
    while cy < h
        invariant
            cy <= h, w <= 65535, h <= 65535, 0 < block_size <= 65535, bw <= 65535,
            mc_reads_ok(reference@.len() as int, mvs@, w as int, h as int, block_size as int, bw as int),
            target == spec_motion_comp(reference@, mvs@, w as int, h as int, block_size as int, bw as int),
            out@.len() == cy * w,
            forall|k: int| 0 <= k < out@.len() ==> #[trigger] out@[k] == target[k],
        decreases h - cy,
    {
        let mut cx: usize = 0;
        while cx < w
            invariant
                cx <= w, cy < h, w <= 65535, h <= 65535, 0 < block_size <= 65535, bw <= 65535,
                mc_reads_ok(reference@.len() as int, mvs@, w as int, h as int, block_size as int, bw as int),
                target == spec_motion_comp(reference@, mvs@, w as int, h as int, block_size as int, bw as int),
                out@.len() == cy * w + cx,
                forall|k: int| 0 <= k < out@.len() ==> #[trigger] out@[k] == target[k],
            decreases w - cx,
        {
            proof { lemma_row_major(cx as int, cy as int, w as int, h as int); }
            let bx = cx / block_size;
            let by = cy / block_size;
            let mut v: u8 = 128;
            if bx < bw {
                proof {
                    assert(by * bw + bx <= 65535 * 65535 + 65535) by (nonlinear_arith) requires by <= 65535, bw <= 65535, bx < bw;
                }
                let idx = by * bw + bx;
                if idx < mvs.len() {
                    let (dx, dy) = mvs[idx];
                    let rx: i64 = cx as i64 + dx as i64;
                    let ry: i64 = cy as i64 + dy as i64;
                    if 0 <= rx && rx < w as i64 && 0 <= ry && ry < h as i64 {
                        let rxu = rx as usize;
                        let ryu = ry as usize;
                        proof {
                            lemma_row_major(rxu as int, ryu as int, w as int, h as int);
                            assert(w * h <= 65535 * 65535) by (nonlinear_arith) requires w <= 65535, h <= 65535;
                            assert(ryu * w + rxu < 65535 * 65535);
                            assert(mc_read_ok(reference@.len() as int, mvs@, w as int, h as int, block_size as int, bw as int,
                                cx as int, cy as int));
                        }
                        v = reference[ryu * w + rxu];
                    }
                }
            }
            out.push(v);
            proof {
                assert(out@[cy * w + cx] == target[cy * w + cx]);
            }
            cx += 1;
        }
        proof { assert(cy * w + w == (cy + 1) * w) by (nonlinear_arith); }
        cy += 1;
    }
    proof {
        assert(h * w == w * h) by (nonlinear_arith);
        assert(out@.len() == target.len());
        assert(out@ =~= target);
    }
    out
}

// ---------------------------------------------------------------- motion search

/// The block at `(x0, y0)` moved by `(dx, dy)` lies inside the frame, and
/// so does the block itself.
pub open spec fn mv_valid(w: int, h: int, x0: int, y0: int, bs: int, dx: int, dy: int) -> bool {
    &&& x0 + dx >= 0 && y0 + dy >= 0
    &&& bs == 0 || (x0 + bs <= w && y0 + bs <= h && x0 + dx + bs <= w && y0 + dy + bs <= h)
}

/// Sum of `|cur - refr|` over `n` bytes of row `cy` from column `cx`,
/// against row `ry` from column `rx`.
pub open spec fn row_sad(cur: Seq<u8>, refr: Seq<u8>, w: int, cy: int, cx: int, ry: int, rx: int, n: int) -> int
    decreases n,
{
    if n <= 0 { 0 } else {
        row_sad(cur, refr, w, cy, cx, ry, rx, n - 1) + abs_diff(cur[cy * w + cx + n - 1] as int, refr[ry * w + rx + n - 1] as int)
    }
}

/// Sum of absolute differences over the first `m` rows of the `bs` wide
/// block at `(x0, y0)` against the block at `(rx, ry)`.
pub open spec fn block_sad(cur: Seq<u8>, refr: Seq<u8>, w: int, x0: int, y0: int, rx: int, ry: int, bs: int, m: int) -> int
    decreases m,
{
    if m <= 0 { 0 } else {
        block_sad(cur, refr, w, x0, y0, rx, ry, bs, m - 1) + row_sad(cur, refr, w, y0 + m - 1, x0, ry + m - 1, rx, bs)
    }
}

/// The cost of motion vector `(dx, dy)` for the block at `(x0, y0)`.
pub open spec fn mv_cost(cur: Seq<u8>, refr: Seq<u8>, w: int, x0: int, y0: int, bs: int, dx: int, dy: int) -> int {
    block_sad(cur, refr, w, x0, y0, x0 + dx, y0 + dy, bs, bs)
}

/// `(dy1, dx1)` comes before `(dy2, dx2)` in the search order.
pub open spec fn searched_before(dy1: int, dx1: int, dy2: int, dx2: int) -> bool {
    dy1 < dy2 || (dy1 == dy2 && dx1 < dx2)
}

proof fn lemma_row_sad_bound(cur: Seq<u8>, refr: Seq<u8>, w: int, cy: int, cx: int, ry: int, rx: int, n: int)
    requires n >= 0,
    ensures 0 <= row_sad(cur, refr, w, cy, cx, ry, rx, n) <= 255 * n,
    decreases n,
{
    if n > 0 { lemma_row_sad_bound(cur, refr, w, cy, cx, ry, rx, n - 1); }
}

proof fn lemma_block_sad_bound(cur: Seq<u8>, refr: Seq<u8>, w: int, x0: int, y0: int, rx: int, ry: int, bs: int, m: int)
    requires m >= 0, bs >= 0,
    ensures 0 <= block_sad(cur, refr, w, x0, y0, rx, ry, bs, m) <= 255 * bs * m,
    decreases m,
{
    if m > 0 {
        lemma_block_sad_bound(cur, refr, w, x0, y0, rx, ry, bs, m - 1);
        lemma_row_sad_bound(cur, refr, w, y0 + m - 1, x0, ry + m - 1, rx, bs);
        assert(255 * bs * (m - 1) + 255 * bs == 255 * bs * m) by (nonlinear_arith);
    }
}

/// The cost of the block at `(x0, y0)` against the block at `(rx, ry)`.
fn block_cost(cur: &[u8], refr: &[u8], w: usize, h: usize, x0: usize, y0: usize, rx: usize, ry: usize, bs: usize) -> (r: u64)
    requires
        w <= 65535, h <= 65535, bs <= 65535, cur@.len() >= w * h, refr@.len() >= w * h,
        x0 + bs <= w, y0 + bs <= h, rx + bs <= w, ry + bs <= h,
    ensures r == block_sad(cur@, refr@, w as int, x0 as int, y0 as int, rx as int, ry as int, bs as int, bs as int),
{
    let mut s: u64 = 0;
    let mut py: usize = 0;
    proof { assert(w * h <= 65535 * 65535) by (nonlinear_arith) requires w <= 65535, h <= 65535; }
    while py < bs
        invariant
            py <= bs, w <= 65535, h <= 65535, bs <= 65535, cur@.len() >= w * h, refr@.len() >= w * h, w * h <= 65535 * 65535,
            x0 + bs <= w, y0 + bs <= h, rx + bs <= w, ry + bs <= h,
            s == block_sad(cur@, refr@, w as int, x0 as int, y0 as int, rx as int, ry as int, bs as int, py as int),
        decreases bs - py,
    {
        proof {
            lemma_block_sad_bound(cur@, refr@, w as int, x0 as int, y0 as int, rx as int, ry as int, bs as int, py as int);
            assert(255 * bs * py <= 255 * 65535 * 65535) by (nonlinear_arith) requires bs <= 65535, py <= 65535;
        }
        let mut row: u64 = 0;
        let mut px: usize = 0;
        while px < bs
            invariant
                px <= bs, py < bs, w <= 65535, h <= 65535, bs <= 65535, cur@.len() >= w * h, refr@.len() >= w * h,
                w * h <= 65535 * 65535,
                x0 + bs <= w, y0 + bs <= h, rx + bs <= w, ry + bs <= h,
                row == row_sad(cur@, refr@, w as int, y0 + py, x0 as int, ry + py, rx as int, px as int),
            decreases bs - px,
        {
            proof {
                lemma_row_sad_bound(cur@, refr@, w as int, y0 + py, x0 as int, ry + py, rx as int, px as int);
                lemma_row_major((x0 + px) as int, (y0 + py) as int, w as int, h as int);
                lemma_row_major((rx + px) as int, (ry + py) as int, w as int, h as int);
            }
            let a = cur[(y0 + py) * w + x0 + px];
            let b = refr[(ry + py) * w + rx + px];
            let d: u64 = if a < b { (b - a) as u64 } else { (a - b) as u64 };
            proof {
                assert((y0 + py) * w + x0 + px == (y0 + py) * w + x0 + (px + 1) - 1);
            }
            row = row + d;
            px += 1;
        }
        proof {
            lemma_row_sad_bound(cur@, refr@, w as int, y0 + py, x0 as int, ry + py, rx as int, bs as int);
            lemma_block_sad_bound(cur@, refr@, w as int, x0 as int, y0 as int, rx as int, ry as int, bs as int, py + 1);
            assert(255 * bs * (py + 1) <= 255 * 65535 * 65535) by (nonlinear_arith) requires bs <= 65535, py + 1 <= 65535;
        }
        s = s + row;
        py += 1;
    }
    s
}

/// `(dx, dy)` is within `sr` in each direction and its block lies in the frame.
pub open spec fn mv_ok(w: int, h: int, x0: int, y0: int, bs: int, sr: int, dx: int, dy: int) -> bool {
    -sr <= dx <= sr && -sr <= dy <= sr && mv_valid(w, h, x0, y0, bs, dx, dy)
}

/// `mv` is the motion vector the search picks for block `(bx, by)`: among
/// the vectors within `sr` whose block lies in the frame, the first of
/// least cost in the order dy, then dx; `(0, 0)` when none does.
pub open spec fn best_motion(cur: Seq<u8>, refr: Seq<u8>, w: int, h: int, bx: int, by: int, bs: int, sr: int, mv: (i8, i8)) -> bool {
    best_motion_at(cur, refr, w, h, bx * bs, by * bs, bs, sr, mv)
}

/// `best_motion` for the block at byte position `(x0, y0)`.
pub open spec fn best_motion_at(cur: Seq<u8>, refr: Seq<u8>, w: int, h: int, x0: int, y0: int, bs: int, sr: int, mv: (i8, i8)) -> bool {
    &&& (forall|dx: int, dy: int| !#[trigger] mv_ok(w, h, x0, y0, bs, sr, dx, dy)) ==> mv == (0i8, 0i8)
    &&& (exists|dx: int, dy: int| #[trigger] mv_ok(w, h, x0, y0, bs, sr, dx, dy)) ==> {
        &&& mv_ok(w, h, x0, y0, bs, sr, mv.0 as int, mv.1 as int)
        &&& forall|dx: int, dy: int| #[trigger] mv_ok(w, h, x0, y0, bs, sr, dx, dy)
            ==> mv_cost(cur, refr, w, x0, y0, bs, mv.0 as int, mv.1 as int) <= mv_cost(cur, refr, w, x0, y0, bs, dx, dy)
        &&& forall|dx: int, dy: int| #[trigger] mv_ok(w, h, x0, y0, bs, sr, dx, dy) && searched_before(dy, dx, mv.1 as int, mv.0 as int)
            ==> mv_cost(cur, refr, w, x0, y0, bs, mv.0 as int, mv.1 as int) < mv_cost(cur, refr, w, x0, y0, bs, dx, dy)
    }
}

/// Find the motion vector of block `(bx, by)` (blocks of `block_size`
/// bytes square) within `search_range` in each direction: among the
/// vectors whose block lies in the frame, the first of least cost in the
/// order dy, then dx, from `-search_range` up; `(0, 0)` when none does.
pub fn find_motion_vector(current: &[u8], reference: &[u8], w: usize, h: usize, bx: usize, by: usize,
    block_size: usize, search_range: i32) -> (r: (i8, i8))
    requires
        w <= 65535, h <= 65535, block_size <= 65535, bx * block_size <= 0x7FFF_0000, by * block_size <= 0x7FFF_0000,
        0 <= search_range <= 127, current@.len() >= w * h, reference@.len() >= w * h,
    ensures
        best_motion(current@, reference@, w as int, h as int, bx as int, by as int, block_size as int, search_range as int, r),
{
    let x0 = bx * block_size;
    let y0 = by * block_size;
    let bs = block_size;
    let sr = search_range;
    let ghost x0i = x0 as int;
    let ghost y0i = y0 as int;
    let mut best_dx: i8 = 0;
    let mut best_dy: i8 = 0;
    let mut best_sad: u64 = u64::MAX;
    let ghost mut found = false;
    let mut dy: i32 = -sr;
    while dy <= sr
        invariant
            -sr <= dy <= sr + 1, 0 <= sr <= 127, x0 == bx * block_size, y0 == by * block_size, bs == block_size,
            x0i == x0, y0i == y0, x0 <= 0x7FFF_0000, y0 <= 0x7FFF_0000,
            w <= 65535, h <= 65535, bs <= 65535, current@.len() >= w * h, reference@.len() >= w * h,
            !found ==> best_dx == 0 && best_dy == 0 && best_sad == u64::MAX
                && forall|ddx: int, ddy: int| ddy < dy && #[trigger] mv_ok(w as int, h as int, x0i, y0i, bs as int, sr as int, ddx, ddy) ==> false,
            found ==> mv_ok(w as int, h as int, x0i, y0i, bs as int, sr as int, best_dx as int, best_dy as int) && best_dy < dy && best_sad == mv_cost(current@, reference@, w as int, x0i, y0i, bs as int, best_dx as int, best_dy as int)
                && (forall|ddx: int, ddy: int| ddy < dy && #[trigger] mv_ok(w as int, h as int, x0i, y0i, bs as int, sr as int, ddx, ddy) ==> best_sad <= mv_cost(current@, reference@, w as int, x0i, y0i, bs as int, ddx, ddy))
                && (forall|ddx: int, ddy: int| ddy < dy && #[trigger] mv_ok(w as int, h as int, x0i, y0i, bs as int, sr as int, ddx, ddy)
                    && searched_before(ddy, ddx, best_dy as int, best_dx as int) ==> best_sad < mv_cost(current@, reference@, w as int, x0i, y0i, bs as int, ddx, ddy)),
        decreases sr + 1 - dy,
    {
        let mut dx: i32 = -sr;
        while dx <= sr
            invariant
                -sr <= dx <= sr + 1, -sr <= dy <= sr, 0 <= sr <= 127, x0 == bx * block_size, y0 == by * block_size, bs == block_size,
                x0i == x0, y0i == y0, x0 <= 0x7FFF_0000, y0 <= 0x7FFF_0000,
                w <= 65535, h <= 65535, bs <= 65535, current@.len() >= w * h, reference@.len() >= w * h,
                !found ==> best_dx == 0 && best_dy == 0 && best_sad == u64::MAX
                    && forall|ddx: int, ddy: int| searched_before(ddy, ddx, dy as int, dx as int) && #[trigger] mv_ok(w as int, h as int, x0i, y0i, bs as int, sr as int, ddx, ddy) ==> false,
                found ==> mv_ok(w as int, h as int, x0i, y0i, bs as int, sr as int, best_dx as int, best_dy as int) && searched_before(best_dy as int, best_dx as int, dy as int, dx as int)
                    && best_sad == mv_cost(current@, reference@, w as int, x0i, y0i, bs as int, best_dx as int, best_dy as int)
                    && (forall|ddx: int, ddy: int| searched_before(ddy, ddx, dy as int, dx as int) && #[trigger] mv_ok(w as int, h as int, x0i, y0i, bs as int, sr as int, ddx, ddy)
                        ==> best_sad <= mv_cost(current@, reference@, w as int, x0i, y0i, bs as int, ddx, ddy))
                    && (forall|ddx: int, ddy: int| searched_before(ddy, ddx, dy as int, dx as int) && #[trigger] mv_ok(w as int, h as int, x0i, y0i, bs as int, sr as int, ddx, ddy)
                        && searched_before(ddy, ddx, best_dy as int, best_dx as int) ==> best_sad < mv_cost(current@, reference@, w as int, x0i, y0i, bs as int, ddx, ddy)),
            decreases sr + 1 - dx,
        {
            let rx: i64 = x0 as i64 + dx as i64;
            let ry: i64 = y0 as i64 + dy as i64;
            let valid = rx >= 0 && ry >= 0
                && (bs == 0 || ((x0 + bs) as i64 <= w as i64 && (y0 + bs) as i64 <= h as i64
                    && rx + bs as i64 <= w as i64 && ry + bs as i64 <= h as i64));
            proof { assert(valid == mv_ok(w as int, h as int, x0i, y0i, bs as int, sr as int, dx as int, dy as int)); }
            if valid {
                let c = if bs == 0 { 0 } else { block_cost(current, reference, w, h, x0, y0, rx as usize, ry as usize, bs) };
                proof {
                    assert(c == mv_cost(current@, reference@, w as int, x0i, y0i, bs as int, dx as int, dy as int));
                    lemma_block_sad_bound(current@, reference@, w as int, x0 as int, y0 as int, rx as int, ry as int, bs as int, bs as int);
                    assert(255 * bs * bs <= 255 * 65535 * 65535) by (nonlinear_arith) requires bs <= 65535;
                }
                if c < best_sad {
                    best_sad = c;
                    best_dx = dx as i8;
                    best_dy = dy as i8;
                    proof { found = true; }
                }
            }
            dx += 1;
        }
        dy += 1;
    }
    proof {
        assert(x0i == bx as int * block_size as int);
        assert(y0i == by as int * block_size as int);
        if found {
            assert forall|ddx: int, ddy: int| #[trigger] mv_ok(w as int, h as int, x0i, y0i, bs as int, sr as int, ddx, ddy)
                implies mv_cost(current@, reference@, w as int, x0i, y0i, bs as int, best_dx as int, best_dy as int)
                    <= mv_cost(current@, reference@, w as int, x0i, y0i, bs as int, ddx, ddy) by {
                assert(ddy < dy);
            }
            assert forall|ddx: int, ddy: int| #[trigger] mv_ok(w as int, h as int, x0i, y0i, bs as int, sr as int, ddx, ddy)
                && searched_before(ddy, ddx, best_dy as int, best_dx as int)
                implies mv_cost(current@, reference@, w as int, x0i, y0i, bs as int, best_dx as int, best_dy as int)
                    < mv_cost(current@, reference@, w as int, x0i, y0i, bs as int, ddx, ddy) by {
                assert(ddy < dy);
            }
        } else {
            assert forall|ddx: int, ddy: int| !#[trigger] mv_ok(w as int, h as int, x0i, y0i, bs as int, sr as int, ddx, ddy) by {
                if mv_ok(w as int, h as int, x0i, y0i, bs as int, sr as int, ddx, ddy) { assert(ddy < dy); }
            }
        }
        assert(best_motion_at(current@, reference@, w as int, h as int, x0i, y0i, bs as int, sr as int, (best_dx, best_dy)));
    }
    (best_dx, best_dy)
}

// ---------------------------------------------------------------- encoding

/// Block size of the motion search, and how far it looks.
pub const MV_BLOCK: usize = 16;
pub const MV_RANGE: i32 = 16;

/// The three planes of a frame: luma, then the two chroma planes.
pub struct Planes {
    pub y: Vec<u8>,
    pub cb: Vec<u8>,
    pub cr: Vec<u8>,
}

/// The three planes as values.
pub struct PlanesView {
    pub y: Seq<u8>,
    pub cb: Seq<u8>,
    pub cr: Seq<u8>,
}

impl View for Planes {
    type V = PlanesView;

    open spec fn view(&self) -> PlanesView {
        PlanesView { y: self.y@, cb: self.cb@, cr: self.cr@ }
    }
}

/// Blocks per row of a `w` wide frame.
pub open spec fn block_cols(w: int) -> int {
    (w + 15) / 16
}

/// The motion vectors of every block of `cur` against `refr`, row by row.
pub open spec fn best_motions(cur: Seq<u8>, refr: Seq<u8>, w: int, h: int, mvs: Seq<(i8, i8)>) -> bool {
    &&& mvs.len() == block_cols(w) * block_cols(h)
    &&& forall|k: int| 0 <= k < mvs.len() ==> best_motion(cur, refr, w, h, k % block_cols(w), k / block_cols(w),
        MV_BLOCK as int, MV_RANGE as int, #[trigger] mvs[k])
}

/// The residual planes of `cur` predicted from `refr` with motion vectors
/// `mvs` for the luma plane and without motion for the chroma planes.
pub open spec fn residual_planes(cur: PlanesView, refr: PlanesView, mvs: Seq<(i8, i8)>, w: int, h: int) -> PlanesView {
    PlanesView {
        y: spec_residual(cur.y, spec_motion_comp(refr.y, mvs, w, h, MV_BLOCK as int, block_cols(w))),
        cb: spec_residual(cur.cb, refr.cb),
        cr: spec_residual(cur.cr, refr.cr),
    }
}

/// Motion vectors and residual planes of `cur` against `refr`.
pub fn encode_pframe(cur: &Planes, refr: &Planes, w: usize, h: usize) -> (r: (Vec<(i8, i8)>, Planes))
    requires w <= 65535, h <= 65535, cur.y@.len() >= w * h, refr.y@.len() >= w * h,
    ensures
        best_motions(cur.y@, refr.y@, w as int, h as int, r.0@),
        r.1@ == residual_planes(cur@, refr@, r.0@, w as int, h as int),
{
    let bw = (w + 15) / 16;
    let bh = (h + 15) / 16;
    let mut mvs: Vec<(i8, i8)> = Vec::new();
    let mut by: usize = 0;
    while by < bh
        invariant
            by <= bh, bw == block_cols(w as int), bh == block_cols(h as int), bw <= 4096, bh <= 4096,
            w <= 65535, h <= 65535, cur.y@.len() >= w * h, refr.y@.len() >= w * h,
            mvs@.len() == by * bw,
            forall|k: int| 0 <= k < mvs@.len() ==> best_motion(cur.y@, refr.y@, w as int, h as int, k % bw as int, k / bw as int,
                MV_BLOCK as int, MV_RANGE as int, #[trigger] mvs@[k]),
        decreases bh - by,
    {
        let mut bx: usize = 0;
        while bx < bw
            invariant
                bx <= bw, by < bh, bw == block_cols(w as int), bh == block_cols(h as int), bw <= 4096, bh <= 4096,
                w <= 65535, h <= 65535, cur.y@.len() >= w * h, refr.y@.len() >= w * h,
                mvs@.len() == by * bw + bx,
                forall|k: int| 0 <= k < mvs@.len() ==> best_motion(cur.y@, refr.y@, w as int, h as int, k % bw as int, k / bw as int,
                    MV_BLOCK as int, MV_RANGE as int, #[trigger] mvs@[k]),
            decreases bw - bx,
        {
            let mv = find_motion_vector(cur.y.as_slice(), refr.y.as_slice(), w, h, bx, by, MV_BLOCK, MV_RANGE);
            proof {
                lemma_row_major(bx as int, by as int, bw as int, bh as int);
            }
            mvs.push(mv);
            bx += 1;
        }
        proof { assert(by * bw + bw == (by + 1) * bw) by (nonlinear_arith); }
        by += 1;
    }
    proof {
        lemma_full_reference_reads_ok(refr.y@.len() as int, mvs@, w as int, h as int, MV_BLOCK as int, bw as int);
        assert(bh * bw == bw * bh) by (nonlinear_arith);
    }
    let predicted = apply_motion_compensation(refr.y.as_slice(), mvs.as_slice(), w, h, MV_BLOCK, bw);
    let dy = residual(cur.y.as_slice(), predicted.as_slice());
    let dcb = residual(cur.cb.as_slice(), refr.cb.as_slice());
    let dcr = residual(cur.cr.as_slice(), refr.cr.as_slice());
    (mvs, Planes { y: dy, cb: dcb, cr: dcr })
}

/// How one frame is stored: its kind (0 intra, 1 predicted from the
/// previous reference, 2 predicted from the previous or the next
/// reference), which reference a kind-2 frame uses (1 for the next), its
/// motion vectors, and the planes to compress.
pub struct FramePlan {
    pub kind: u8,
    pub ref_dir: u8,
    pub mvs: Vec<(i8, i8)>,
    pub planes: Planes,
}

/// The kinds of `n` frames with `gop` frames per group.
pub open spec fn kinds_of(n: int, gop: int) -> Seq<u8> {
    Seq::new(n as nat, |i: int| spec_frame_kind(i, gop, n))
}

/// Sum of absolute differences over the shorter of two planes.
pub open spec fn sad_of(a: Seq<u8>, b: Seq<u8>) -> int {
    spec_sad(a, b, if a.len() < b.len() { a.len() as int } else { b.len() as int })
}

/// `p` is how the encoder stores frame `i` of `frames`: an intra frame as
/// it is; otherwise motion vectors and residuals against the last frame
/// before it that is no look-ahead frame, or, for a look-ahead frame whose
/// luma differs less from it, against the frame `spec_future_ref` names.
pub open spec fn planned(frames: Seq<PlanesView>, w: int, h: int, gop: int, i: int, p: FramePlan) -> bool {
    let n = frames.len() as int;
    let kind = spec_frame_kind(i, gop, n);
    &&& p.kind == kind
    &&& kind == 0 ==> p.ref_dir == 0 && p.mvs@.len() == 0 && p.planes@ == frames[i]
    &&& kind != 0 ==> {
        let past = frames[spec_past_ref(kinds_of(n, gop), i)];
        let fut = frames[spec_future_ref(i, gop, n)];
        let use_future = kind == 2 && sad_of(frames[i].y, fut.y) < sad_of(frames[i].y, past.y);
        let refp = if use_future { fut } else { past };
        &&& p.ref_dir == (if use_future { 1u8 } else { 0u8 })
        &&& best_motions(frames[i].y, refp.y, w, h, p.mvs@)
        &&& p.planes@ == residual_planes(frames[i], refp, p.mvs@, w, h)
    }
}

/// Frame kinds of a group of pictures: the first frame of each group of
/// `gop` is an intra frame (0); any other frame is a look-ahead frame (2)
/// exactly when its index is odd and the next group's first frame lies in
/// the clip, and a predicted frame (1) otherwise.
pub proof fn law_frame_kinds(i: int, gop: int, n: int)
    requires gop > 0, 0 <= i < n,
    ensures
        i % gop == 0 ==> spec_frame_kind(i, gop, n) == 0,
        i % gop != 0 && i - i % gop + gop < n ==> (spec_frame_kind(i, gop, n) == 2 <==> i % 2 == 1),
        i % gop != 0 && !(i - i % gop + gop < n && i % 2 == 1) ==> spec_frame_kind(i, gop, n) == 1,
{
    assert(i - i % gop == (i / gop) * gop) by (nonlinear_arith) requires gop > 0;
    assert((i / gop + 1) * gop == (i / gop) * gop + gop) by (nonlinear_arith);
}

/// A look-ahead frame is predicted from the better of its two references:
/// from the future one only when its luma differs strictly less from the
/// frame (by the sum of absolute differences) than the past one's, and
/// from the past one otherwise.
pub proof fn law_lookahead_reference(frames: Seq<PlanesView>, w: int, h: int, gop: int, i: int, p: FramePlan)
    requires
        planned(frames, w, h, gop, i, p), p.kind == 2,
    ensures ({
        let n = frames.len() as int;
        let past = frames[spec_past_ref(kinds_of(n, gop), i)];
        let fut = frames[spec_future_ref(i, gop, n)];
        &&& p.ref_dir == 0 || p.ref_dir == 1
        &&& p.ref_dir == 1 ==> sad_of(frames[i].y, fut.y) < sad_of(frames[i].y, past.y)
        &&& p.ref_dir == 0 ==> sad_of(frames[i].y, past.y) <= sad_of(frames[i].y, fut.y)
    }),
{
}

/// The planes of `frames` as values.
pub open spec fn planes_view(frames: Seq<Planes>) -> Seq<PlanesView> {
    frames.map_values(|f: Planes| f@)
}

fn copy_planes(p: &Planes) -> (r: Planes)
    ensures r@ == p@,
{
    Planes {
        y: crate::bytes::copy_bytes(p.y.as_slice()),
        cb: crate::bytes::copy_bytes(p.cb.as_slice()),
        cr: crate::bytes::copy_bytes(p.cr.as_slice()),
    }
}

/// Decide how each frame is stored and compute the planes to compress:
/// the group structure, the reference each predicted frame uses, its
/// motion vectors and residuals.
#[verifier::spinoff_prover]
#[verifier::rlimit(30)]
pub fn plan_video(frames: &Vec<Planes>, w: usize, h: usize, gop: u16) -> (r: Vec<FramePlan>)
    requires
        gop > 0, w <= 65535, h <= 65535,
        forall|i: int| 0 <= i < frames@.len() ==> (#[trigger] frames@[i]).y@.len() == w * h,
    ensures
        r@.len() == frames@.len(),
        forall|i: int| 0 <= i < frames@.len() ==> planned(planes_view(frames@), w as int, h as int, gop as int, i, #[trigger] r@[i]),
{
    let n = frames.len();
    let ghost fv = planes_view(frames@);
    let ghost kinds = kinds_of(n as int, gop as int);
    let mut out: Vec<FramePlan> = Vec::new();
    let mut last_ref: usize = 0;
    let mut i: usize = 0;
    proof { assert(w * h <= 65535 * 65535) by (nonlinear_arith) requires w <= 65535, h <= 65535; }
    while i < n
        invariant
            i <= n, n == frames@.len(), fv == planes_view(frames@), kinds == kinds_of(n as int, gop as int),
            gop > 0, w <= 65535, h <= 65535, w * h <= 65535 * 65535,
            forall|j: int| 0 <= j < frames@.len() ==> (#[trigger] frames@[j]).y@.len() == w * h,
            out@.len() == i,
            i > 0 ==> last_ref < i && last_ref as int == spec_past_ref(kinds, i as int),
            forall|j: int| 0 <= j < i ==> planned(fv, w as int, h as int, gop as int, j, #[trigger] out@[j]),
        decreases n - i,
    {
        let kind = frame_kind(i, gop, n);
        let cur = &frames[i];
        proof {
            assert(fv[i as int] == cur@);
            assert(kinds[i as int] == kind);
        }
        if kind == 0 {
            let planes = copy_planes(cur);
            out.push(FramePlan { kind, ref_dir: 0, mvs: Vec::new(), planes });
            last_ref = i;
        } else {
            proof {
                if i == 0 {
                    assert(0int % (gop as int) == 0) by (nonlinear_arith) requires gop > 0;
                    assert(kind == 0);
                }
                assert(last_ref < i);
            }
            let past = &frames[last_ref];
            proof { assert(fv[last_ref as int] == past@); }
            let mut use_future = false;
            let mut fut_idx: usize = 0;
            if kind == 2 {
                fut_idx = future_ref(i, gop, n);
                let sad_fut = plane_sad(cur.y.as_slice(), frames[fut_idx].y.as_slice());
                let sad_past = plane_sad(cur.y.as_slice(), past.y.as_slice());
                use_future = sad_fut < sad_past;
                proof {
                    assert(fv[fut_idx as int] == frames@[fut_idx as int]@);
                    assert(fv[last_ref as int] == past@);
                }
            }
            let refp = if use_future { &frames[fut_idx] } else { past };
            proof {
                assert(fv[last_ref as int] == past@);
                if use_future { assert(fv[spec_future_ref(i as int, gop as int, n as int)] == refp@); }
            }
            let (mvs, planes) = encode_pframe(cur, refp, w, h);
            let ref_dir: u8 = if use_future { 1 } else { 0 };
            out.push(FramePlan { kind, ref_dir, mvs, planes });
            if kind == 1 {
                last_ref = i;
            }
        }
        proof {
            assert(planned(fv, w as int, h as int, gop as int, i as int, out@[i as int]));
        }
        i += 1;
    }
    out
}

// ---------------------------------------------------------------- container layout

/// Three planes, each after its 32-bit length.
pub open spec fn planes_bytes(p: PlanesView) -> Seq<u8> {
    u32_bytes(p.y.len() as u32) + p.y + u32_bytes(p.cb.len() as u32) + p.cb + u32_bytes(p.cr.len() as u32) + p.cr
}

/// Motion vectors as byte pairs.
pub open spec fn mv_bytes(mvs: Seq<(i8, i8)>) -> Seq<u8>
    decreases mvs.len(),
{
    if mvs.len() == 0 { Seq::empty() } else { mv_bytes(mvs.drop_last()) + seq![mvs.last().0 as u8, mvs.last().1 as u8] }
}

/// The stored bytes of a frame of `kind` whose compressed planes are `c`:
/// intra frames hold the planes; predicted frames the vector count, the
/// vectors and the planes, after the reference byte for kind 2.
pub open spec fn frame_payload(kind: u8, ref_dir: u8, mvs: Seq<(i8, i8)>, c: PlanesView) -> Seq<u8> {
    if kind == 0 {
        planes_bytes(c)
    } else {
        let p = u16_bytes(mvs.len() as u16) + mv_bytes(mvs) + planes_bytes(c);
        if kind == 2 { seq![ref_dir] + p } else { p }
    }
}

/// A frame record: its kind, its length, its bytes.
pub open spec fn frame_record(kind: u8, payload: Seq<u8>) -> Seq<u8> {
    seq![kind] + u32_bytes(payload.len() as u32) + payload
}

/// The 12-byte PLTV header.
pub open spec fn pltv_header(p: VideoParams, n: int) -> Seq<u8> {
    seq![0x50u8, 0x4Cu8, 0x54u8, 0x56u8] + u16_bytes(p.width) + u16_bytes(p.height) + seq![p.fps, p.quality] + u16_bytes(n as u16)
}

/// The records of the first `k` planned frames with compressed planes `comps`.
pub open spec fn records(plans: Seq<FramePlan>, comps: Seq<PlanesView>, k: int) -> Seq<u8>
    decreases k,
{
    if k <= 0 {
        Seq::empty()
    } else {
        records(plans, comps, k - 1)
            + frame_record(plans[k - 1].kind, frame_payload(plans[k - 1].kind, plans[k - 1].ref_dir, plans[k - 1].mvs@, comps[k - 1]))
    }
}

fn push_planes(buf: &mut Vec<u8>, c: &Planes)
    ensures final(buf)@ == old(buf)@ + planes_bytes(c@),
{
    push_u32(buf, c.y.len() as u32);
    push_bytes(buf, c.y.as_slice());
    push_u32(buf, c.cb.len() as u32);
    push_bytes(buf, c.cb.as_slice());
    push_u32(buf, c.cr.len() as u32);
    push_bytes(buf, c.cr.as_slice());
    proof {
        assert(final(buf)@ =~= old(buf)@ + planes_bytes(c@));
    }
}

fn frame_bytes(plan: &FramePlan, c: &Planes) -> (r: Vec<u8>)
    ensures r@ == frame_payload(plan.kind, plan.ref_dir, plan.mvs@, c@),
{
    let mut buf: Vec<u8> = Vec::new();
    if plan.kind == 0 {
        push_planes(&mut buf, c);
        proof { assert(buf@ =~= planes_bytes(c@)); }
        return buf;
    }
    if plan.kind == 2 {
        buf.push(plan.ref_dir);
    }
    let ghost head = buf@;
    push_u16(&mut buf, plan.mvs.len() as u16);
    let mut k: usize = 0;
    while k < plan.mvs.len()
        invariant k <= plan.mvs@.len(), buf@ == head + u16_bytes(plan.mvs@.len() as u16) + mv_bytes(plan.mvs@.take(k as int)),
        decreases plan.mvs.len() - k,
    {
        let (dx, dy) = plan.mvs[k];
        buf.push(dx as u8);
        buf.push(dy as u8);
        proof {
            assert(plan.mvs@.take(k + 1).drop_last() =~= plan.mvs@.take(k as int));
            assert(buf@ =~= head + u16_bytes(plan.mvs@.len() as u16) + mv_bytes(plan.mvs@.take(k + 1)));
        }
        k += 1;
    }
    proof { assert(plan.mvs@.take(k as int) =~= plan.mvs@); }
    push_planes(&mut buf, c);
    proof {
        if plan.kind == 2 {
            assert(buf@ =~= seq![plan.ref_dir] + (u16_bytes(plan.mvs@.len() as u16) + mv_bytes(plan.mvs@) + planes_bytes(c@)));
        } else {
            assert(buf@ =~= u16_bytes(plan.mvs@.len() as u16) + mv_bytes(plan.mvs@) + planes_bytes(c@));
        }
    }
    buf
}

/// The PLTV container of planned frames whose planes were compressed to
/// `comps`: the header, then a record per frame.
pub fn assemble_video(params: VideoParams, plans: &Vec<FramePlan>, comps: &Vec<Planes>) -> (r: Vec<u8>)
    requires plans@.len() == comps@.len(),
    ensures r@ == pltv_header(params, plans@.len() as int) + records(plans@, planes_view(comps@), plans@.len() as int),
{
    let mut buf: Vec<u8> = Vec::new();
    buf.push(0x50);
    buf.push(0x4C);
    buf.push(0x54);
    buf.push(0x56);
    push_u16(&mut buf, params.width);
    push_u16(&mut buf, params.height);
    buf.push(params.fps);
    buf.push(params.quality);
    push_u16(&mut buf, plans.len() as u16);
    let ghost head = buf@;
    proof { assert(head =~= pltv_header(params, plans@.len() as int)); }
    let ghost cv = planes_view(comps@);
    let mut i: usize = 0;
    while i < plans.len()
        invariant
            i <= plans@.len(), plans@.len() == comps@.len(), cv == planes_view(comps@),
            buf@ == head + records(plans@, cv, i as int),
        decreases plans.len() - i,
    {
        let payload = frame_bytes(&plans[i], &comps[i]);
        proof { assert(cv[i as int] == comps@[i as int]@); }
        buf.push(plans[i].kind);
        push_u32(&mut buf, payload.len() as u32);
        push_bytes(&mut buf, payload.as_slice());
        proof {
            assert(buf@ =~= head + records(plans@, cv, i + 1));
        }
        i += 1;
    }
    buf
}

// ---------------------------------------------------------------- decoding

/// Why a PLTV container was refused.
#[derive(Debug, Clone, Copy, PartialEq, Eq, Structural)]
pub enum VideoError {
    /// shorter than its header, or not "PLTV"
    BadMagic,
    /// a frame of unknown kind left no picture
    MissingFrame,
}

/// A stored frame: kind, reference byte (kind 2), motion vectors
/// (kinds 1 and 2) and the compressed planes (kinds 0 to 2).
pub struct ParsedFrame {
    pub kind: u8,
    pub ref_dir: u8,
    pub mvs: Vec<(i8, i8)>,
    pub planes: Planes,
}

/// A stored frame as values.
pub struct ParsedView {
    pub kind: u8,
    pub ref_dir: u8,
    pub mvs: Seq<(i8, i8)>,
    pub planes: PlanesView,
}

impl View for ParsedFrame {
    type V = ParsedView;

    open spec fn view(&self) -> ParsedView {
        ParsedView { kind: self.kind, ref_dir: self.ref_dir, mvs: self.mvs@, planes: self.planes@ }
    }
}

/// No planes.
pub open spec fn no_planes() -> PlanesView {
    PlanesView { y: Seq::empty(), cb: Seq::empty(), cr: Seq::empty() }
}

/// The three length-prefixed planes of `d` from `pos`; `None` where a
/// length or a plane runs past the end.
pub open spec fn spec_planes_at(d: Seq<u8>, pos: int) -> Option<PlanesView> {
    if pos < 0 || pos + 4 > d.len() || pos + 4 + le32(d, pos) > d.len() {
        None
    } else {
        let p1 = pos + 4 + le32(d, pos);
        if p1 + 4 > d.len() || p1 + 4 + le32(d, p1) > d.len() {
            None
        } else {
            let p2 = p1 + 4 + le32(d, p1);
            if p2 + 4 > d.len() || p2 + 4 + le32(d, p2) > d.len() {
                None
            } else {
                Some(PlanesView {
                    y: d.subrange(pos + 4, p1),
                    cb: d.subrange(p1 + 4, p2),
                    cr: d.subrange(p2 + 4, p2 + 4 + le32(d, p2)),
                })
            }
        }
    }
}

/// The motion vectors and planes of a predicted frame's bytes.
pub open spec fn spec_pframe(d: Seq<u8>) -> Option<(Seq<(i8, i8)>, PlanesView)> {
    if d.len() < 2 || 2 + 2 * le16(d, 0) > d.len() {
        None
    } else {
        let n = le16(d, 0);
        match spec_planes_at(d, 2 + 2 * n) {
            None => None,
            Some(p) => Some((Seq::new(n as nat, |k: int| (d[2 + 2 * k] as i8, d[3 + 2 * k] as i8)), p)),
        }
    }
}

/// The content of a frame of `kind` stored as `d`.
pub open spec fn spec_frame_content(kind: u8, d: Seq<u8>) -> Option<ParsedView> {
    if kind == 0 {
        match spec_planes_at(d, 0) {
            None => None,
            Some(p) => Some(ParsedView { kind, ref_dir: 0, mvs: Seq::empty(), planes: p }),
        }
    } else if kind == 1 {
        match spec_pframe(d) {
            None => None,
            Some((m, p)) => Some(ParsedView { kind, ref_dir: 0, mvs: m, planes: p }),
        }
    } else if kind == 2 {
        if d.len() < 1 {
            None
        } else {
            match spec_pframe(d.subrange(1, d.len() as int)) {
                None => None,
                Some((m, p)) => Some(ParsedView { kind, ref_dir: d[0], mvs: m, planes: p }),
            }
        }
    } else {
        Some(ParsedView { kind, ref_dir: 0, mvs: Seq::empty(), planes: no_planes() })
    }
}

/// The first `k` frame records of `d` from `off`, each read as its kind
/// says; `None` where a header or a frame of kind 0 to 2 runs past the end.
pub open spec fn spec_frames(d: Seq<u8>, off: int, k: int) -> Option<Seq<ParsedView>>
    decreases k,
{
    if k <= 0 {
        Some(Seq::empty())
    } else if off < 0 || off + 5 > d.len() {
        None
    } else {
        let kind = d[off];
        let len = le32(d, off + 1);
        let next = off + 5 + len;
        let here = if kind <= 2 {
            if next > d.len() { None } else { spec_frame_content(kind, d.subrange(off + 5, next)) }
        } else {
            spec_frame_content(kind, Seq::empty())
        };
        match here {
            None => None,
            Some(f) => match spec_frames(d, next, k - 1) {
                None => None,
                Some(rest) => Some(seq![f] + rest),
            },
        }
    }
}

/// What reading a PLTV container gives: its settings (without the group
/// size) and frames, `BadMagic`, or `None` where the reader would run past
/// the end.
pub open spec fn spec_parse_video(d: Seq<u8>) -> Option<Result<(VideoParams, Seq<ParsedView>), VideoError>> {
    if d.len() < 12 || !(d[0] == 0x50 && d[1] == 0x4C && d[2] == 0x54 && d[3] == 0x56) {
        Some(Err(VideoError::BadMagic))
    } else {
        let params = VideoParams { width: le16(d, 4) as u16, height: le16(d, 6) as u16, fps: d[8], quality: d[9], gop_size: 0 };
        match spec_frames(d, 12, le16(d, 10)) {
            None => None,
            Some(fs) => Some(Ok((params, fs))),
        }
    }
}

// ---------------------------------------------------------------- reading back what was written

/// What reading gives back for a frame planned as `p` whose planes were
/// stored compressed as `c`.
pub open spec fn parsed_of(p: FramePlan, c: PlanesView) -> ParsedView {
    ParsedView {
        kind: p.kind,
        ref_dir: if p.kind == 2 { p.ref_dir } else { 0 },
        mvs: if p.kind == 0 { Seq::empty() } else { p.mvs@ },
        planes: c,
    }
}

/// The frames of `plans` fit the fields they are written with: kinds 0 to
/// 2, vector lists of at most 65535 and payloads of at most 2^32 - 1 bytes.
pub open spec fn records_fit(plans: Seq<FramePlan>, comps: Seq<PlanesView>, k: int) -> bool {
    forall|i: int| 0 <= i < k ==> (#[trigger] plans[i]).kind <= 2 && plans[i].mvs@.len() <= 65535
        && frame_payload(plans[i].kind, plans[i].ref_dir, plans[i].mvs@, comps[i]).len() <= 0xFFFF_FFFF
}

/// Bytes `a..b` of `pl` placed at `pos` in `d`.
proof fn lemma_placed_part(d: Seq<u8>, pos: int, pl: Seq<u8>, a: int, b: int)
    requires crate::entry::placed(d, pos, pl), 0 <= a <= b <= pl.len(),
    ensures crate::entry::placed(d, pos + a, pl.subrange(a, b)),
{
    assert(d.subrange(pos + a, pos + b) =~= pl.subrange(a, b)) by {
        assert forall|t: int| 0 <= t < b - a implies #[trigger] d.subrange(pos + a, pos + b)[t] == pl.subrange(a, b)[t] by {
            assert(d.subrange(pos, pos + pl.len())[a + t] == pl[a + t]);
        }
    }
}

#[verifier::spinoff_prover]
#[verifier::rlimit(30)]
proof fn lemma_planes_read(d: Seq<u8>, pos: int, c: PlanesView)
    requires crate::entry::placed(d, pos, planes_bytes(c)), planes_bytes(c).len() <= 0xFFFF_FFFF,
    ensures spec_planes_at(d, pos) == Some(c),
{
    let b = planes_bytes(c);
    let ly = c.y.len() as int;
    let lb = c.cb.len() as int;
    let lr = c.cr.len() as int;
    assert(b.subrange(0, 4) =~= u32_bytes(ly as u32));
    assert(b.subrange(4, 4 + ly) =~= c.y);
    assert(b.subrange(4 + ly, 8 + ly) =~= u32_bytes(lb as u32));
    assert(b.subrange(8 + ly, 8 + ly + lb) =~= c.cb);
    assert(b.subrange(8 + ly + lb, 12 + ly + lb) =~= u32_bytes(lr as u32));
    assert(b.subrange(12 + ly + lb, 12 + ly + lb + lr) =~= c.cr);
    lemma_placed_part(d, pos, b, 0, 4);
    lemma_placed_part(d, pos, b, 4, 4 + ly);
    lemma_placed_part(d, pos, b, 4 + ly, 8 + ly);
    lemma_placed_part(d, pos, b, 8 + ly, 8 + ly + lb);
    lemma_placed_part(d, pos, b, 8 + ly + lb, 12 + ly + lb);
    lemma_placed_part(d, pos, b, 12 + ly + lb, 12 + ly + lb + lr);
    crate::bytes::lemma_u32_bytes(ly as u32, d, pos);
    crate::bytes::lemma_u32_bytes(lb as u32, d, pos + 4 + ly);
    crate::bytes::lemma_u32_bytes(lr as u32, d, pos + 8 + ly + lb);
}

#[verifier::spinoff_prover]
#[verifier::rlimit(30)]
proof fn lemma_mv_bytes(mvs: Seq<(i8, i8)>)
    ensures
        mv_bytes(mvs).len() == 2 * mvs.len(),
        forall|k: int| 0 <= k < mvs.len() ==> mv_bytes(mvs)[2 * k] == (#[trigger] mvs[k]).0 as u8
            && mv_bytes(mvs)[2 * k + 1] == mvs[k].1 as u8,
    decreases mvs.len(),
{
    if mvs.len() > 0 {
        let s = mvs.drop_last();
        lemma_mv_bytes(s);
        assert forall|k: int| 0 <= k < mvs.len() implies mv_bytes(mvs)[2 * k] == (#[trigger] mvs[k]).0 as u8
            && mv_bytes(mvs)[2 * k + 1] == mvs[k].1 as u8 by {
            if k < mvs.len() - 1 {
                assert(s[k] == mvs[k]);
            }
        }
    }
}

#[verifier::spinoff_prover]
#[verifier::rlimit(40)]
proof fn lemma_pframe_read(mvs: Seq<(i8, i8)>, c: PlanesView)
    requires
        mvs.len() <= 65535,
        (u16_bytes(mvs.len() as u16) + mv_bytes(mvs) + planes_bytes(c)).len() <= 0xFFFF_FFFF,
    ensures spec_pframe(u16_bytes(mvs.len() as u16) + mv_bytes(mvs) + planes_bytes(c)) == Some((mvs, c)),
{
    let d = u16_bytes(mvs.len() as u16) + mv_bytes(mvs) + planes_bytes(c);
    let n = mvs.len() as int;
    lemma_mv_bytes(mvs);
    assert(d.subrange(0, 2) =~= u16_bytes(n as u16));
    crate::bytes::lemma_u16_bytes(n as u16, d, 0);
    assert(d.subrange(2 + 2 * n, 2 + 2 * n + planes_bytes(c).len() as int) =~= planes_bytes(c));
    lemma_planes_read(d, 2 + 2 * n, c);
    let m = Seq::new(n as nat, |k: int| (d[2 + 2 * k] as i8, d[3 + 2 * k] as i8));
    assert forall|k: int| 0 <= k < n implies #[trigger] m[k] == mvs[k] by {
        assert(d[2 + 2 * k] == mv_bytes(mvs)[2 * k]);
        assert(d[3 + 2 * k] == mv_bytes(mvs)[2 * k + 1]);
        let x = mvs[k].0;
        let y = mvs[k].1;
        assert((x as u8) as i8 == x) by (bit_vector);
        assert((y as u8) as i8 == y) by (bit_vector);
    }
    assert(m =~= mvs);
}

#[verifier::spinoff_prover]
#[verifier::rlimit(40)]
proof fn lemma_content_read(p: FramePlan, c: PlanesView)
    requires p.kind <= 2, p.mvs@.len() <= 65535, frame_payload(p.kind, p.ref_dir, p.mvs@, c).len() <= 0xFFFF_FFFF,
    ensures spec_frame_content(p.kind, frame_payload(p.kind, p.ref_dir, p.mvs@, c)) == Some(parsed_of(p, c)),
{
    let pl = frame_payload(p.kind, p.ref_dir, p.mvs@, c);
    if p.kind == 0 {
        assert(pl.subrange(0, pl.len() as int) =~= pl);
        lemma_planes_read(pl, 0, c);
    } else {
        let q = u16_bytes(p.mvs@.len() as u16) + mv_bytes(p.mvs@) + planes_bytes(c);
        lemma_pframe_read(p.mvs@, c);
        if p.kind == 2 {
            assert(pl.subrange(1, pl.len() as int) =~= q);
        }
    }
}

#[verifier::spinoff_prover]
#[verifier::rlimit(30)]
proof fn lemma_records_prefix(plans: Seq<FramePlan>, comps: Seq<PlanesView>, j: int, k: int)
    requires 0 <= j <= k,
    ensures
        records(plans, comps, j).len() <= records(plans, comps, k).len(),
        records(plans, comps, k).subrange(0, records(plans, comps, j).len() as int) == records(plans, comps, j),
    decreases k,
{
    if j < k {
        lemma_records_prefix(plans, comps, j, k - 1);
        let a = records(plans, comps, k - 1);
        let b = records(plans, comps, k);
        let lj = records(plans, comps, j).len() as int;
        assert(b.subrange(0, lj) =~= a.subrange(0, lj));
    } else {
        assert(records(plans, comps, k).subrange(0, records(plans, comps, k).len() as int) =~= records(plans, comps, k));
    }
}

/// One frame record placed at `pos` reads back as its frame.
#[verifier::spinoff_prover]
#[verifier::rlimit(30)]
proof fn lemma_record_read(d: Seq<u8>, pos: int, p: FramePlan, c: PlanesView)
    requires
        crate::entry::placed(d, pos, frame_record(p.kind, frame_payload(p.kind, p.ref_dir, p.mvs@, c))),
        p.kind <= 2, p.mvs@.len() <= 65535, frame_payload(p.kind, p.ref_dir, p.mvs@, c).len() <= 0xFFFF_FFFF,
    ensures
        pos >= 0, pos + 5 <= d.len(),
        d[pos] == p.kind,
        le32(d, pos + 1) == frame_payload(p.kind, p.ref_dir, p.mvs@, c).len(),
        pos + 5 + frame_payload(p.kind, p.ref_dir, p.mvs@, c).len() <= d.len(),
        spec_frame_content(p.kind, d.subrange(pos + 5, pos + 5 + frame_payload(p.kind, p.ref_dir, p.mvs@, c).len()))
            == Some(parsed_of(p, c)),
{
    let pl = frame_payload(p.kind, p.ref_dir, p.mvs@, c);
    let fr = frame_record(p.kind, pl);
    lemma_placed_part(d, pos, fr, 0, 1);
    assert(d[pos] == d.subrange(pos, pos + 1)[0]);
    assert(fr.subrange(0, 1)[0] == p.kind);
    assert(fr.subrange(1, 5) =~= u32_bytes(pl.len() as u32));
    lemma_placed_part(d, pos, fr, 1, 5);
    crate::bytes::lemma_u32_bytes(pl.len() as u32, d, pos + 1);
    assert(fr.subrange(5, 5 + pl.len() as int) =~= pl);
    lemma_placed_part(d, pos, fr, 5, 5 + pl.len() as int);
    lemma_content_read(p, c);
}

/// Record `j` of the first `k` stands right after the first `j`.
#[verifier::spinoff_prover]
#[verifier::rlimit(30)]
proof fn lemma_record_placed(d: Seq<u8>, off: int, plans: Seq<FramePlan>, comps: Seq<PlanesView>, j: int, k: int)
    requires
        0 <= j < k,
        crate::entry::placed(d, off, records(plans, comps, k)),
    ensures
        crate::entry::placed(d, off + records(plans, comps, j).len(),
            frame_record(plans[j].kind, frame_payload(plans[j].kind, plans[j].ref_dir, plans[j].mvs@, comps[j]))),
        records(plans, comps, j + 1).len() == records(plans, comps, j).len()
            + frame_record(plans[j].kind, frame_payload(plans[j].kind, plans[j].ref_dir, plans[j].mvs@, comps[j])).len(),
{
    lemma_records_prefix(plans, comps, j + 1, k);
    let rj = records(plans, comps, j);
    let rj1 = records(plans, comps, j + 1);
    let fr = frame_record(plans[j].kind, frame_payload(plans[j].kind, plans[j].ref_dir, plans[j].mvs@, comps[j]));
    assert(rj1 == rj + fr);
    lemma_placed_part(d, off, records(plans, comps, k), 0, rj1.len() as int);
    lemma_placed_part(d, off, rj1, rj.len() as int, rj1.len() as int);
    assert(rj1.subrange(rj.len() as int, rj1.len() as int) =~= fr);
}

#[verifier::spinoff_prover]
#[verifier::rlimit(30)]
proof fn lemma_records_read(d: Seq<u8>, off: int, plans: Seq<FramePlan>, comps: Seq<PlanesView>, j: int, k: int)
    requires
        0 <= j <= k <= plans.len(), k <= comps.len(),
        crate::entry::placed(d, off, records(plans, comps, k)),
        records_fit(plans, comps, k),
    ensures
        spec_frames(d, off + records(plans, comps, j).len(), k - j)
            == Some(Seq::new((k - j) as nat, |t: int| parsed_of(plans[j + t], comps[j + t]))),
    decreases k - j,
{
    if j < k {
        let p = plans[j];
        lemma_record_placed(d, off, plans, comps, j, k);
        lemma_record_read(d, off + records(plans, comps, j).len(), p, comps[j]);
        lemma_records_read(d, off, plans, comps, j + 1, k);
        let s1 = Seq::new((k - j - 1) as nat, |t: int| parsed_of(plans[j + 1 + t], comps[j + 1 + t]));
        let s0 = Seq::new((k - j) as nat, |t: int| parsed_of(plans[j + t], comps[j + t]));
        assert(seq![parsed_of(p, comps[j])] + s1 =~= s0);
    } else {
        assert(Seq::new(0nat, |t: int| parsed_of(plans[j + t], comps[j + t])) =~= Seq::<ParsedView>::empty());
    }
}

/// A video container reads back as it was written: where there are at most
/// 65535 frames, each of kind 0 to 2, with at most 65535 motion vectors and
/// at most 2^32 - 1 stored bytes, reading the header and the records of
/// `plans` with compressed planes `comps` gives the settings (all but the
/// group size, which is not stored) and, for each frame in order, its kind,
/// its reference direction (bidirectional frames), its motion vectors
/// (predicted frames) and its compressed planes.
#[verifier::spinoff_prover]
#[verifier::rlimit(30)]
pub proof fn law_video_container_restores(params: VideoParams, plans: Seq<FramePlan>, comps: Seq<PlanesView>)
    requires
        plans.len() == comps.len(),
        plans.len() <= 65535,
        records_fit(plans, comps, plans.len() as int),
    ensures
        spec_parse_video(pltv_header(params, plans.len() as int) + records(plans, comps, plans.len() as int))
            == Some(Ok::<(VideoParams, Seq<ParsedView>), VideoError>((
                VideoParams { width: params.width, height: params.height, fps: params.fps, quality: params.quality, gop_size: 0 },
                Seq::new(plans.len(), |i: int| parsed_of(plans[i], comps[i]))))),
{
    let n = plans.len() as int;
    let h = pltv_header(params, n);
    let r = records(plans, comps, n);
    let d = h + r;
    assert(h.len() == 12);
    assert(d.subrange(4, 6) =~= u16_bytes(params.width));
    crate::bytes::lemma_u16_bytes(params.width, d, 4);
    assert(d.subrange(6, 8) =~= u16_bytes(params.height));
    crate::bytes::lemma_u16_bytes(params.height, d, 6);
    assert(d.subrange(10, 12) =~= u16_bytes(n as u16));
    crate::bytes::lemma_u16_bytes(n as u16, d, 10);
    assert(d.subrange(12, 12 + r.len() as int) =~= r);
    lemma_records_read(d, 12, plans, comps, 0, n);
    assert(records(plans, comps, 0).len() == 0);
    assert(Seq::new((n - 0) as nat, |t: int| parsed_of(plans[0 + t], comps[0 + t]))
        =~= Seq::new(plans.len(), |i: int| parsed_of(plans[i], comps[i])));
}

/// Read the three length-prefixed planes of `d` from `pos`.
fn read_planes(d: &[u8], pos: usize) -> (r: Option<Planes>)
    ensures
        r is Some <==> spec_planes_at(d@, pos as int) is Some,
        r matches Some(p) ==> p@ == spec_planes_at(d@, pos as int)->0,
{
    if pos > d.len() || d.len() - pos < 4 {
        return None;
    }
    let n0 = read_u32(d, pos) as usize;
    if d.len() - pos - 4 < n0 {
        return None;
    }
    let p1 = pos + 4 + n0;
    if d.len() - p1 < 4 {
        return None;
    }
    let n1 = read_u32(d, p1) as usize;
    if d.len() - p1 - 4 < n1 {
        return None;
    }
    let p2 = p1 + 4 + n1;
    if d.len() - p2 < 4 {
        return None;
    }
    let n2 = read_u32(d, p2) as usize;
    if d.len() - p2 - 4 < n2 {
        return None;
    }
    let y = copy_range(d, pos + 4, p1);
    let cb = copy_range(d, p1 + 4, p2);
    let cr = copy_range(d, p2 + 4, p2 + 4 + n2);
    Some(Planes { y, cb, cr })
}

/// Read the motion vectors and planes of a predicted frame's bytes.
fn read_pframe(d: &[u8]) -> (r: Option<(Vec<(i8, i8)>, Planes)>)
    ensures
        r is Some <==> spec_pframe(d@) is Some,
        r matches Some((m, p)) ==> spec_pframe(d@) == Some((m@, p@)),
{
    if d.len() < 2 {
        return None;
    }
    let n = read_u16(d, 0) as usize;
    if 2 * n > d.len() - 2 {
        return None;
    }
    let mut mvs: Vec<(i8, i8)> = Vec::new();
    let mut k: usize = 0;
    while k < n
        invariant
            k <= n, n == le16(d@, 0), 2 + 2 * n <= d@.len(),
            mvs@ =~= Seq::new(k as nat, |q: int| (d@[2 + 2 * q] as i8, d@[3 + 2 * q] as i8)),
        decreases n - k,
    {
        mvs.push((d[2 + 2 * k] as i8, d[3 + 2 * k] as i8));
        k += 1;
    }
    match read_planes(d, 2 + 2 * n) {
        None => None,
        Some(p) => Some((mvs, p)),
    }
}

/// Read the content of a frame of `kind` stored as `d`.
fn read_frame_content(kind: u8, d: &[u8]) -> (r: Option<ParsedFrame>)
    ensures
        r is Some <==> spec_frame_content(kind, d@) is Some,
        r matches Some(f) ==> f@ == spec_frame_content(kind, d@)->0,
{
    if kind == 0 {
        match read_planes(d, 0) {
            None => None,
            Some(p) => Some(ParsedFrame { kind, ref_dir: 0, mvs: Vec::new(), planes: p }),
        }
    } else if kind == 1 {
        match read_pframe(d) {
            None => None,
            Some((m, p)) => Some(ParsedFrame { kind, ref_dir: 0, mvs: m, planes: p }),
        }
    } else if kind == 2 {
        if d.len() < 1 {
            return None;
        }
        let rest = copy_range(d, 1, d.len());
        match read_pframe(rest.as_slice()) {
            None => None,
            Some((m, p)) => Some(ParsedFrame { kind, ref_dir: d[0], mvs: m, planes: p }),
        }
    } else {
        let r = ParsedFrame { kind, ref_dir: 0, mvs: Vec::new(), planes: Planes { y: Vec::new(), cb: Vec::new(), cr: Vec::new() } };
        proof { assert(r@ == spec_frame_content(kind, d@)->0); }
        Some(r)
    }
}

/// Read a PLTV container: its settings (the group size is not stored and
/// reads as 0) and its frames; `BadMagic` for a short input or another
/// magic; `None` where the reader would run past the end of the input.
pub fn parse_video(data: &[u8]) -> (r: Option<Result<(VideoParams, Vec<ParsedFrame>), VideoError>>)
    ensures
        r is Some <==> spec_parse_video(data@) is Some,
        r matches Some(Err(e)) ==> spec_parse_video(data@) == Some(Err::<(VideoParams, Seq<ParsedView>), VideoError>(e)),
        r matches Some(Ok((p, fs))) ==> spec_parse_video(data@) matches Some(Ok((sp, sfs)))
            && p == sp && fs@.map_values(|f: ParsedFrame| f@) == sfs,
{
    if data.len() < 12 || !(data[0] == 0x50 && data[1] == 0x4C && data[2] == 0x54 && data[3] == 0x56) {
        return Some(Err(VideoError::BadMagic));
    }
    let params = VideoParams { width: read_u16(data, 4), height: read_u16(data, 6), fps: data[8], quality: data[9], gop_size: 0 };
    let n = read_u16(data, 10) as usize;
    let mut frames: Vec<ParsedFrame> = Vec::new();
    let mut off: usize = 12;
    let ghost mut goff: int = 12;
    let mut k: usize = 0;
    let ghost total = spec_frames(data@, 12, n as int);
    proof { assert(frames@.map_values(|f: ParsedFrame| f@) =~= Seq::<ParsedView>::empty()); }
    while k < n
        invariant
            k <= n, n == le16(data@, 10), data@.len() >= 12, total == spec_frames(data@, 12, n as int),
            data@[0] == 0x50 && data@[1] == 0x4C && data@[2] == 0x54 && data@[3] == 0x56,
            params == (VideoParams { width: le16(data@, 4) as u16, height: le16(data@, 6) as u16, fps: data@[8],
                quality: data@[9], gop_size: 0 }),
            off as int == goff || (goff > data@.len() && off == usize::MAX),
            total is Some ==> spec_frames(data@, goff, (n - k) as int) is Some
                && total->0 == frames@.map_values(|f: ParsedFrame| f@) + spec_frames(data@, goff, (n - k) as int)->0,
            total is None ==> spec_frames(data@, goff, (n - k) as int) is None,
        decreases n - k,
    {
        if off > data.len() || data.len() - off < 5 {
            proof {
                assert(spec_frames(data@, goff, (n - k) as int) is None);
                assert(total is None);
            }
            return None;
        }
        proof { assert(off as int == goff); }
        let kind = data[off];
        let len = read_u32(data, off + 1) as usize;
        let here: Option<ParsedFrame> = if kind <= 2 {
            if data.len() - off - 5 < len {
                None
            } else {
                let d = copy_range(data, off + 5, off + 5 + len);
                read_frame_content(kind, d.as_slice())
            }
        } else {
            let empty: Vec<u8> = Vec::new();
            proof { assert(empty@ =~= Seq::<u8>::empty()); }
            read_frame_content(kind, empty.as_slice())
        };
        proof {
            assert(le32(data@, off + 1) == len);
            if kind <= 2 && off + 5 + len <= data@.len() {
                assert(spec_frames(data@, off as int, (n - k) as int) matches Some(_)
                    ==> spec_frame_content(kind, data@.subrange(off + 5, off + 5 + len)) is Some);
            }
        }
        match here {
            None => {
                proof {
                    assert(spec_frames(data@, goff, (n - k) as int) is None);
                    assert(total is None);
                }
                return None;
            }
            Some(f) => {
                let ghost before = frames@.map_values(|f: ParsedFrame| f@);
                frames.push(f);
                proof {
                    assert(frames@.map_values(|f: ParsedFrame| f@) =~= before.push(f@));
                    let rest = spec_frames(data@, off + 5 + len, (n - k - 1) as int);
                    if rest is Some {
                        assert(before + spec_frames(data@, off as int, (n - k) as int)->0
                            =~= before.push(f@) + rest->0);
                    }
                }
                proof { goff = goff + 5 + len; }
                off = if data.len() - off - 5 < len { usize::MAX } else { off + 5 + len };
            }
        }
        k += 1;
    }
    proof {
        assert(spec_frames(data@, off as int, 0) == Some(Seq::<ParsedView>::empty()));
        assert(frames@.map_values(|f: ParsedFrame| f@) + Seq::<ParsedView>::empty() =~= frames@.map_values(|f: ParsedFrame| f@));
    }
    Some(Ok((params, frames)))
}

// ---------------------------------------------------------------- reconstruction

/// A predicted frame rebuilt from its decoded residual planes `res`, its
/// motion vectors and the reference planes.
pub open spec fn p_decode(res: PlanesView, mvs: Seq<(i8, i8)>, refp: PlanesView, w: int, h: int) -> PlanesView {
    PlanesView {
        y: spec_add_residual(res.y, spec_motion_comp(refp.y, mvs, w, h, MV_BLOCK as int, block_cols(w))),
        cb: spec_add_residual(res.cb, refp.cb),
        cr: spec_add_residual(res.cr, refp.cr),
    }
}

/// Every read of the luma prediction from `refp` lies within it.
pub open spec fn can_predict(mvs: Seq<(i8, i8)>, refp: PlanesView, w: int, h: int) -> bool {
    mc_reads_ok(refp.y.len() as int, mvs, w, h, MV_BLOCK as int, block_cols(w))
}

/// The kinds of stored frames.
pub open spec fn kinds_view(fr: Seq<ParsedView>) -> Seq<u8> {
    fr.map_values(|f: ParsedView| f.kind)
}

/// The first pass over the first `k` frames: intra frames are their
/// decoded planes, predicted frames are rebuilt from the last of those
/// two kinds, look-ahead and unknown frames wait; with the reference left
/// for the next frame. `None` where a prediction would read outside its
/// reference.
pub open spec fn ip_pass(fr: Seq<ParsedView>, dec: Seq<PlanesView>, w: int, h: int, k: int)
    -> Option<(Seq<Option<PlanesView>>, PlanesView)>
    decreases k,
{
    if k <= 0 {
        Some((Seq::empty(), no_planes()))
    } else {
        match ip_pass(fr, dec, w, h, k - 1) {
            None => None,
            Some((slots, refp)) => {
                let f = fr[k - 1];
                if f.kind == 0 {
                    Some((slots.push(Some(dec[k - 1])), dec[k - 1]))
                } else if f.kind == 1 {
                    if can_predict(f.mvs, refp, w, h) {
                        let p = p_decode(dec[k - 1], f.mvs, refp, w, h);
                        Some((slots.push(Some(p)), p))
                    } else {
                        None
                    }
                } else {
                    Some((slots.push(None), refp))
                }
            }
        }
    }
}

/// The second pass over the first `k` frames: each look-ahead frame is
/// rebuilt from the frame `spec_next_ref` names when it asks for it and
/// that one is decoded, else from the frame `spec_past_ref` names. `None`
/// where that frame is not decoded or a prediction would read outside it.
pub open spec fn b_pass(fr: Seq<ParsedView>, dec: Seq<PlanesView>, w: int, h: int, slots0: Seq<Option<PlanesView>>, k: int)
    -> Option<Seq<Option<PlanesView>>>
    decreases k,
{
    if k <= 0 {
        Some(slots0)
    } else {
        match b_pass(fr, dec, w, h, slots0, k - 1) {
            None => None,
            Some(slots) => {
                let f = fr[k - 1];
                if f.kind != 2 {
                    Some(slots)
                } else {
                    let fut = spec_next_ref(kinds_view(fr), k - 1);
                    let past = spec_past_ref(kinds_view(fr), k - 1);
                    let chosen = if f.ref_dir == 1 && slots[fut] is Some { slots[fut] } else { slots[past] };
                    match chosen {
                        None => None,
                        Some(refp) => if can_predict(f.mvs, refp, w, h) {
                            Some(slots.update(k - 1, Some(p_decode(dec[k - 1], f.mvs, refp, w, h))))
                        } else {
                            None
                        },
                    }
                }
            }
        }
    }
}

/// The pictures of `fr` whose planes decoded to `dec`: both passes, then
/// `MissingFrame` if a frame of unknown kind left none.
pub open spec fn spec_reconstruct(fr: Seq<ParsedView>, dec: Seq<PlanesView>, w: int, h: int)
    -> Option<Result<Seq<PlanesView>, VideoError>>
{
    match ip_pass(fr, dec, w, h, fr.len() as int) {
        None => None,
        Some((slots, _)) => match b_pass(fr, dec, w, h, slots, fr.len() as int) {
            None => None,
            Some(fin) => if forall|i: int| 0 <= i < fin.len() ==> (#[trigger] fin[i]) is Some {
                Some(Ok(Seq::new(fin.len(), |i: int| fin[i]->0)))
            } else {
                Some(Err(VideoError::MissingFrame))
            },
        },
    }
}

/// Whether every read of the prediction lies within `len` reference bytes.
fn reads_ok(len: usize, mvs: &[(i8, i8)], w: usize, h: usize, bw: usize) -> (r: bool)
    requires w <= 65535, h <= 65535, bw <= 65535,
    ensures r == mc_reads_ok(len as int, mvs@, w as int, h as int, MV_BLOCK as int, bw as int),
{
    let mut cy: usize = 0;
    while cy < h
        invariant
            cy <= h, w <= 65535, h <= 65535, bw <= 65535,
            forall|x: int, y: int| 0 <= x < w && 0 <= y < cy ==> #[trigger] mc_read_ok(len as int, mvs@, w as int, h as int,
                MV_BLOCK as int, bw as int, x, y),
        decreases h - cy,
    {
        let mut cx: usize = 0;
        while cx < w
            invariant
                cx <= w, cy < h, w <= 65535, h <= 65535, bw <= 65535,
                forall|x: int, y: int| 0 <= x < w && 0 <= y < cy ==> #[trigger] mc_read_ok(len as int, mvs@, w as int, h as int,
                    MV_BLOCK as int, bw as int, x, y),
                forall|x: int| 0 <= x < cx ==> #[trigger] mc_read_ok(len as int, mvs@, w as int, h as int,
                    MV_BLOCK as int, bw as int, x, cy as int),
            decreases w - cx,
        {
            let bx = cx / MV_BLOCK;
            let by = cy / MV_BLOCK;
            if bx < bw {
                proof {
                    assert(by * bw + bx <= 65535 * 65535 + 65535) by (nonlinear_arith) requires by <= 65535, bw <= 65535, bx < bw;
                }
                let idx = by * bw + bx;
                if idx < mvs.len() {
                    let (dx, dy) = mvs[idx];
                    let rx: i64 = cx as i64 + dx as i64;
                    let ry: i64 = cy as i64 + dy as i64;
                    if 0 <= rx && rx < w as i64 && 0 <= ry && ry < h as i64 {
                        let rxu = rx as usize;
                        let ryu = ry as usize;
                        proof {
                            lemma_row_major(rxu as int, ryu as int, w as int, h as int);
                            assert(w * h <= 65535 * 65535) by (nonlinear_arith) requires w <= 65535, h <= 65535;
                            assert(ryu * w + rxu < 65535 * 65535);
                        }
                        let at = ryu * w + rxu;
                        if at >= len {
                            proof {
                                assert(!mc_read_ok(len as int, mvs@, w as int, h as int, MV_BLOCK as int, bw as int, cx as int, cy as int));
                            }
                            return false;
                        }
                    }
                }
            }
            proof {
                assert(mc_read_ok(len as int, mvs@, w as int, h as int, MV_BLOCK as int, bw as int, cx as int, cy as int));
            }
            cx += 1;
        }
        cy += 1;
    }
    true
}

/// Rebuild a predicted frame from its decoded residual planes, its motion
/// vectors and its reference.
pub fn decode_pframe(res: &Planes, mvs: &[(i8, i8)], refp: &Planes, w: usize, h: usize) -> (r: Planes)
    requires w <= 65535, h <= 65535, can_predict(mvs@, refp@, w as int, h as int),
    ensures r@ == p_decode(res@, mvs@, refp@, w as int, h as int),
{
    let bw = (w + 15) / 16;
    let predicted = apply_motion_compensation(refp.y.as_slice(), mvs, w, h, MV_BLOCK, bw);
    let y = add_residual(res.y.as_slice(), predicted.as_slice());
    let cb = add_residual(res.cb.as_slice(), refp.cb.as_slice());
    let cr = add_residual(res.cr.as_slice(), refp.cr.as_slice());
    Planes { y, cb, cr }
}

/// The slots as values.
pub open spec fn slots_view(s: Seq<Option<Planes>>) -> Seq<Option<PlanesView>> {
    s.map_values(|o: Option<Planes>| match o { Some(p) => Some(p@), None => None })
}

/// The stored frames as values.
pub open spec fn frames_view(fs: Seq<ParsedFrame>) -> Seq<ParsedView> {
    fs.map_values(|f: ParsedFrame| f@)
}

/// Rebuild the pictures of a PLTV container from its stored frames and
/// the decoded planes of each (the planes themselves for intra frames, the
/// residuals for predicted frames): intra and predicted frames first, in
/// order, then the look-ahead frames. `None` where a look-ahead frame's
/// reference is not decoded or a prediction would read outside its
/// reference; `MissingFrame` where a frame of unknown kind is left.
pub fn reconstruct_video(frames: &Vec<ParsedFrame>, decoded: &Vec<Planes>, w: usize, h: usize)
    -> (r: Option<Result<Vec<Planes>, VideoError>>)
    requires frames@.len() == decoded@.len(), w <= 65535, h <= 65535,
    ensures
        r is Some <==> spec_reconstruct(frames_view(frames@), planes_view(decoded@), w as int, h as int) is Some,
        r matches Some(Err(e)) ==> spec_reconstruct(frames_view(frames@), planes_view(decoded@), w as int, h as int)
            == Some(Err::<Seq<PlanesView>, VideoError>(e)),
        r matches Some(Ok(ps)) ==> spec_reconstruct(frames_view(frames@), planes_view(decoded@), w as int, h as int)
            == Some(Ok::<Seq<PlanesView>, VideoError>(planes_view(ps@))),
{
    let n = frames.len();
    let ghost fv = frames_view(frames@);
    let ghost dv = planes_view(decoded@);
    let bw = (w + 15) / 16;
    let empty = Planes { y: Vec::new(), cb: Vec::new(), cr: Vec::new() };
    proof { assert(empty@ == no_planes()); }
    let mut slots: Vec<Option<Planes>> = Vec::new();
    let mut ref_idx: Option<usize> = None;
    let mut i: usize = 0;
    proof { assert(slots_view(slots@) =~= Seq::<Option<PlanesView>>::empty()); }
    while i < n
        invariant
            i <= n, n == frames@.len(), n == decoded@.len(), fv == frames_view(frames@), dv == planes_view(decoded@),
            w <= 65535, h <= 65535, bw == block_cols(w as int), empty@ == no_planes(),
            slots@.len() == i,
            ref_idx matches Some(j) ==> j < i && slots@[j as int] is Some,
            ip_pass(fv, dv, w as int, h as int, i as int) == Some((slots_view(slots@),
                match ref_idx { None => no_planes(), Some(j) => slots_view(slots@)[j as int]->0 })),
        decreases n - i,
    {
        let kind = frames[i].kind;
        let ghost before = slots@;
        proof { assert(fv[i as int] == frames@[i as int]@); assert(dv[i as int] == decoded@[i as int]@); }
        if kind == 0 {
            let p = copy_planes(&decoded[i]);
            slots.push(Some(p));
            ref_idx = Some(i);
            proof { assert(slots_view(slots@) =~= slots_view(before).push(Some(dv[i as int]))); }
        } else if kind == 1 {
            let newp = {
                let refp: &Planes = match ref_idx {
                    None => &empty,
                    Some(j) => match &slots[j] {
                        Some(p) => p,
                        None => &empty,
                    },
                };
                proof {
                    assert(refp@ == match ref_idx { None => no_planes(), Some(j) => slots_view(slots@)[j as int]->0 });
                }
                if !reads_ok(refp.y.len(), frames[i].mvs.as_slice(), w, h, bw) {
                    proof {
                        assert(ip_pass(fv, dv, w as int, h as int, i + 1) is None);
                        lemma_ip_none(fv, dv, w as int, h as int, i + 1, n as int);
                    }
                    return None;
                }
                decode_pframe(&decoded[i], frames[i].mvs.as_slice(), refp, w, h)
            };
            slots.push(Some(newp));
            ref_idx = Some(i);
            proof { assert(slots_view(slots@) =~= slots_view(before).push(Some(slots_view(slots@)[i as int]->0))); }
        } else {
            slots.push(None);
            proof { assert(slots_view(slots@) =~= slots_view(before).push(None)); }
        }
        proof {
            assert forall|j: int| 0 <= j < before.len() implies #[trigger] slots@[j] == before[j] by {}
        }
        i += 1;
    }
    let ghost slots0 = slots_view(slots@);
    // kinds of all frames, for the references of look-ahead frames
    let mut kinds: Vec<u8> = Vec::new();
    let mut k: usize = 0;
    while k < n
        invariant k <= n, n == frames@.len(), fv == frames_view(frames@), kinds@ =~= kinds_view(fv).take(k as int),
        decreases n - k,
    {
        kinds.push(frames[k].kind);
        proof { assert(fv[k as int] == frames@[k as int]@); }
        k += 1;
    }
    proof { assert(kinds_view(fv).take(n as int) =~= kinds_view(fv)); }
    let next = next_refs(kinds.as_slice());
    let mut i2: usize = 0;
    proof { assert(b_pass(fv, dv, w as int, h as int, slots0, 0) == Some(slots0)); }
    while i2 < n
        invariant
            i2 <= n, n == frames@.len(), n == decoded@.len(), fv == frames_view(frames@), dv == planes_view(decoded@),
            w <= 65535, h <= 65535, bw == block_cols(w as int), kinds@ == kinds_view(fv), next@.len() == n,
            forall|q: int| 0 <= q < n ==> next@[q] as int == (if kinds@[q] != 2 { q } else { spec_next_ref(kinds@, q) }),
            slots@.len() == n,
            b_pass(fv, dv, w as int, h as int, slots0, i2 as int) == Some(slots_view(slots@)),
            ip_pass(fv, dv, w as int, h as int, n as int) matches Some((s0, _)) && s0 == slots0,
        decreases n - i2,
    {
        let kind = frames[i2].kind;
        proof { assert(fv[i2 as int] == frames@[i2 as int]@); assert(dv[i2 as int] == decoded@[i2 as int]@); }
        if kind == 2 {
            let fut = next[i2];
            let past = past_ref(kinds.as_slice(), i2);
            proof {
                assert(kinds@[i2 as int] == 2);
                assert(fut as int == spec_next_ref(kinds@, i2 as int));
                crate::video::lemma_next_ref_bound(kinds@, i2 as int);
                lemma_past_ref_bound(kinds@, i2 as int);
            }
            let chosen = if frames[i2].ref_dir == 1 && slots[fut].is_some() { fut } else { past };
            let ghost before = slots@;
            proof {
                assert(slots_view(slots@)[fut as int] is Some == slots@[fut as int] is Some);
                assert(slots_view(slots@)[chosen as int] is Some == slots@[chosen as int] is Some);
            }
            let newp = match &slots[chosen] {
                None => {
                    proof {
                        assert(b_pass(fv, dv, w as int, h as int, slots0, i2 + 1) is None);
                        lemma_b_none(fv, dv, w as int, h as int, slots0, i2 + 1, n as int);
                    }
                    return None;
                }
                Some(refp) => {
                    proof { assert(slots_view(slots@)[chosen as int] == Some(refp@)); }
                    if !reads_ok(refp.y.len(), frames[i2].mvs.as_slice(), w, h, bw) {
                        proof {
                            assert(b_pass(fv, dv, w as int, h as int, slots0, i2 + 1) is None);
                            lemma_b_none(fv, dv, w as int, h as int, slots0, i2 + 1, n as int);
                        }
                        return None;
                    }
                    decode_pframe(&decoded[i2], frames[i2].mvs.as_slice(), refp, w, h)
                }
            };
            slots.set(i2, Some(newp));
            proof {
                assert(slots_view(slots@) =~= slots_view(before).update(i2 as int, Some(newp@)));
            }
        }
        i2 += 1;
    }
    // every frame must have a picture
    let mut out: Vec<Planes> = Vec::new();
    let mut j: usize = 0;
    while j < n
        invariant
            j <= n, slots@.len() == n, out@.len() == j, fv == frames_view(frames@), dv == planes_view(decoded@),
            n == frames@.len(),
            forall|q: int| 0 <= q < j ==> (#[trigger] slots@[q]) is Some && out@[q]@ == slots@[q]->0@,
            b_pass(fv, dv, w as int, h as int, slots0, n as int) == Some(slots_view(slots@)),
            ip_pass(fv, dv, w as int, h as int, n as int) matches Some((s0, _)) && s0 == slots0,
        decreases n - j,
    {
        match &slots[j] {
            None => {
                proof {
                    let fin = slots_view(slots@);
                    assert(fin[j as int] is None);
                }
                return Some(Err(VideoError::MissingFrame));
            }
            Some(p) => {
                out.push(copy_planes(p));
            }
        }
        j += 1;
    }
    proof {
        let fin = slots_view(slots@);
        assert(forall|q: int| 0 <= q < fin.len() ==> (#[trigger] fin[q]) is Some);
        assert(planes_view(out@) =~= Seq::new(fin.len(), |q: int| fin[q]->0));
    }
    Some(Ok(out))
}

proof fn lemma_ip_none(fr: Seq<ParsedView>, dec: Seq<PlanesView>, w: int, h: int, k: int, m: int)
    requires 0 <= k <= m, ip_pass(fr, dec, w, h, k) is None,
    ensures ip_pass(fr, dec, w, h, m) is None,
    decreases m - k,
{
    if k < m { lemma_ip_none(fr, dec, w, h, k, m - 1); }
}

proof fn lemma_b_none(fr: Seq<ParsedView>, dec: Seq<PlanesView>, w: int, h: int, s0: Seq<Option<PlanesView>>, k: int, m: int)
    requires 0 <= k <= m, b_pass(fr, dec, w, h, s0, k) is None,
    ensures b_pass(fr, dec, w, h, s0, m) is None,
    decreases m - k,
{
    if k < m { lemma_b_none(fr, dec, w, h, s0, k, m - 1); }
}

proof fn lemma_next_ref_bound(kinds: Seq<u8>, i: int)
    requires 0 <= i < kinds.len(),
    ensures i <= spec_next_ref(kinds, i) < kinds.len(),
    decreases kinds.len() - i,
{
    if i < kinds.len() - 1 && kinds[i] == 2 { lemma_next_ref_bound(kinds, i + 1); }
}

proof fn lemma_past_ref_bound(kinds: Seq<u8>, i: int)
    requires 0 <= i < kinds.len(),
    ensures 0 <= spec_past_ref(kinds, i) <= i,
    decreases i,
{
    if i > 0 && kinds[i - 1] == 2 { lemma_past_ref_bound(kinds, i - 1); }
}

} // verus!
