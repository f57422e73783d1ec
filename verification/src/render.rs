//! Reconstruction of track bytes from pattern parameters.
use vstd::prelude::*;


verus! {

/// Low byte (two's complement) of an integer.
pub open spec fn low_byte(v: int) -> u8 {
    (v % 256) as u8
}

/// Byte `b` (little-endian, two's complement) of an integer.
pub open spec fn byte_at(v: int, b: nat) -> u8 {
    ((v / vstd::arithmetic::power::pow(256, b)) % 256) as u8
}

/// `(v % 256)` of a 64-bit integer, computed without signed remainder.
pub fn low_byte_of(v: i64) -> (r: u8)
    requires -0x4000_0000_0000_0000 <= v <= 0x3fff_ffff_ffff_ffff,
    ensures r == low_byte(v as int),
{
    let shifted: u64 = (v + 0x4000_0000_0000_0000) as u64;
    proof {
        vstd::arithmetic::div_mod::lemma_mod_multiples_vanish(0x40_0000_0000_0000, v as int, 256);
        assert(256 * 0x40_0000_0000_0000 == 0x4000_0000_0000_0000);
    }
    (shifted % 256) as u8
}

// ---------------------------------------------------------------- CONST

/// CONST: `sectors` copies of the value.
pub open spec fn render_const(v: u8, sectors: int) -> Seq<u8> {
    Seq::new(sectors as nat, |i: int| v)
}

// ---------------------------------------------------------------- LINEAR

/// Byte `i` of a linear track: `(start + i * step)` truncated to a byte.
pub open spec fn linear_byte(start: int, step: int, i: int) -> u8 {
    low_byte(start + i * step)
}

/// LINEAR: `n` bytes of the arithmetic sequence.
pub open spec fn render_linear(start: int, step: int, n: int) -> Seq<u8> {
    Seq::new(n as nat, |i: int| linear_byte(start, step, i))
}

proof fn lemma_linear_next(start: int, step: int, i: int, cur: u8, step_b: u8)
    requires cur == linear_byte(start, step, i), step_b == low_byte(step),
    ensures ((cur + step_b) % 256) as u8 == linear_byte(start, step, i + 1),
{
    vstd::arithmetic::div_mod::lemma_add_mod_noop(start + i * step, step, 256);
    assert(start + (i + 1) * step == (start + i * step) + step) by (nonlinear_arith);
}

/// Exec LINEAR reconstruction.
pub fn linear_track(start: i16, step: i16, n: usize) -> (v: Vec<u8>)
    ensures v@ == render_linear(start as int, step as int, n as int),
{
    let mut cur = low_byte_of(start as i64);
    let step_b = low_byte_of(step as i64);
    let mut v: Vec<u8> = Vec::with_capacity(n);
    let mut i: usize = 0;
    proof { assert(0 * (step as int) == 0); }
    while i < n
        invariant
            i <= n,
            cur == linear_byte(start as int, step as int, i as int),
            step_b == low_byte(step as int),
            v@ =~= render_linear(start as int, step as int, i as int),
        decreases n - i,
    {
        v.push(cur);
        proof { lemma_linear_next(start as int, step as int, i as int, cur, step_b); }
        cur = ((cur as u16 + step_b as u16) % 256) as u8;
        i += 1;
    }
    v
}

// ---------------------------------------------------------------- RLE

/// The runs of `(value, count)` written out in order.
pub open spec fn rle_expand(runs: Seq<(u8, u8)>) -> Seq<u8>
    decreases runs.len(),
{
    if runs.len() == 0 {
        Seq::empty()
    } else {
        rle_expand(runs.drop_last()) + Seq::new(runs.last().1 as nat, |i: int| runs.last().0)
    }
}

/// The first `n` bytes of `s`, or all of it when shorter.
pub open spec fn truncated(s: Seq<u8>, n: int) -> Seq<u8> {
    if s.len() > n { s.subrange(0, n) } else { s }
}

/// RLE: the expanded runs, cut to `sectors` bytes.
pub open spec fn render_rle(runs: Seq<(u8, u8)>, sectors: int) -> Seq<u8> {
    truncated(rle_expand(runs), sectors)
}

/// Exec RLE expansion.
pub fn rle_track(runs: &Vec<(u8, u8)>, sectors: usize) -> (v: Vec<u8>)
    ensures v@ == render_rle(runs@, sectors as int),
{
    let mut v: Vec<u8> = Vec::new();
    let mut k: usize = 0;
    while k < runs.len()
        invariant
            k <= runs.len(),
            v@ == truncated(rle_expand(runs@.subrange(0, k as int)), sectors as int),
        decreases runs.len() - k,
    {
        let (val, count) = runs[k];
        let ghost before = rle_expand(runs@.subrange(0, k as int));
        proof {
            assert(runs@.subrange(0, k + 1).drop_last() =~= runs@.subrange(0, k as int));
            assert(runs@.subrange(0, k + 1).last() == runs@[k as int]);
        }
        let mut j: u8 = 0;
        while j < count
            invariant
                j <= count,
                v@ == truncated(before + Seq::new(j as nat, |i: int| val), sectors as int),
            decreases count - j,
        {
            if v.len() < sectors {
                v.push(val);
            }
            proof {
                let t = before + Seq::new(j as nat, |i: int| val);
                let t2 = before + Seq::new((j + 1) as nat, |i: int| val);
                assert(t2 =~= t.push(val));
                if t.len() >= sectors {
                    assert(truncated(t2, sectors as int) =~= truncated(t, sectors as int));
                } else {
                    assert(truncated(t2, sectors as int) =~= t2);
                }
            }
            j += 1;
        }
        k += 1;
    }
    proof { assert(runs@.subrange(0, runs.len() as int) =~= runs@); }
    v
}

// ---------------------------------------------------------------- REPEAT

/// REPEAT: the pattern repeated over `sectors` bytes.
pub open spec fn render_repeat(pattern: Seq<u8>, sectors: int) -> Seq<u8> {
    Seq::new(sectors as nat, |i: int| pattern[i % (pattern.len() as int)])
}

/// Exec REPEAT reconstruction.
pub fn repeat_track(pattern: &[u8], sectors: usize) -> (v: Vec<u8>)
    requires pattern.len() > 0,
    ensures v@ == render_repeat(pattern@, sectors as int),
{
    let mut v: Vec<u8> = Vec::with_capacity(sectors);
    let mut i: usize = 0;
    while i < sectors
        invariant
            pattern.len() > 0,
            i <= sectors,
            v@ =~= Seq::new(i as nat, |k: int| pattern@[k % (pattern.len() as int)]),
        decreases sectors - i,
    {
        v.push(pattern[i % pattern.len()]);
        i += 1;
    }
    v
}

// ---------------------------------------------------------------- DELTA

/// Sum of the first `i` deltas.
pub open spec fn delta_sum(deltas: Seq<i8>, i: int) -> int
    decreases i,
{
    if i <= 0 { 0 } else { delta_sum(deltas, i - 1) + deltas[i - 1] }
}

/// DELTA: `start`, then each delta added to the previous value.
pub open spec fn render_delta(start: int, deltas: Seq<i8>) -> Seq<u8> {
    Seq::new((deltas.len() + 1) as nat, |i: int| low_byte(start + delta_sum(deltas, i)))
}

/// Exec DELTA reconstruction.
pub fn delta_track(start: i16, deltas: &[i8]) -> (v: Vec<u8>)
    ensures v@ == render_delta(start as int, deltas@),
{
    let mut cur = low_byte_of(start as i64);
    let mut v: Vec<u8> = Vec::new();
    v.push(cur);
    let mut i: usize = 0;
    while i < deltas.len()
        invariant
            i <= deltas.len(),
            cur == low_byte(start + delta_sum(deltas@, i as int)),
            v@ =~= Seq::new((i + 1) as nat, |k: int| low_byte(start + delta_sum(deltas@, k))),
        decreases deltas.len() - i,
    {
        let d = low_byte_of(deltas[i] as i64);
        proof {
            vstd::arithmetic::div_mod::lemma_add_mod_noop(start + delta_sum(deltas@, i as int), deltas@[i as int] as int, 256);
        }
        cur = ((cur as u16 + d as u16) % 256) as u8;
        v.push(cur);
        i += 1;
    }
    v
}

// ---------------------------------------------------------------- LINEAR_WIDE

/// Byte `k` of a wide linear track of `w`-byte words.
pub open spec fn wide_byte(start: int, step: int, w: int, k: int) -> u8 {
    byte_at(start + (k / w) * step, (k % w) as nat)
}

/// LINEAR_WIDE: `count` words of `w` bytes (4 when `width` is 4, else 2),
/// cut to `sectors` bytes.
pub open spec fn render_linear_wide(width: u8, count: int, start: int, step: int, sectors: int) -> Seq<u8> {
    let w: int = if width == 4 { 4 } else { 2 };
    let len = if count * w > sectors { sectors } else { count * w };
    Seq::new(len as nat, |k: int| wide_byte(start, step, w, k))
}

/// Low 64 bits (two's complement) of an integer, as an unsigned value.
pub open spec fn wrap64(v: int) -> u64 {
    (v % 0x1_0000_0000_0000_0000) as u64
}

pub proof fn lemma_pow256(b: nat)
    ensures
        b == 0 ==> vstd::arithmetic::power::pow(256, b) == 1,
        b == 1 ==> vstd::arithmetic::power::pow(256, b) == 256,
        b == 2 ==> vstd::arithmetic::power::pow(256, b) == 65536,
        b == 3 ==> vstd::arithmetic::power::pow(256, b) == 16777216,
{
    vstd::arithmetic::power::lemma_pow0(256);
    vstd::arithmetic::power::lemma_pow1(256);
    if b == 2 {
        vstd::arithmetic::power::lemma_pow_adds(256, 1, 1);
    }
    if b == 3 {
        vstd::arithmetic::power::lemma_pow_adds(256, 1, 1);
        vstd::arithmetic::power::lemma_pow_adds(256, 2, 1);
    }
}

proof fn lemma_byte_of_wrapped(v: int, b: nat)
    requires b < 4,
    ensures byte_at(v, b) == byte_at(wrap64(v) as int, b),
        byte_at(v, b) == (((wrap64(v) as int) / vstd::arithmetic::power::pow(256, b)) % 256) as u8,
{
    lemma_pow256(b);
    let p = vstd::arithmetic::power::pow(256, b);
    let m: int = 0x1_0000_0000_0000_0000;
    let w = v % m;
    vstd::arithmetic::div_mod::lemma_fundamental_div_mod(v, m);
    let q = v / m;
    assert(v == m * q + w);
    assert(0 <= w < m) by { vstd::arithmetic::div_mod::lemma_mod_bound(v, m); }
    // v / p == q * (m / p) + w / p, because p divides m
    let mp = m / p;
    assert(mp * p == m) by {
        if b == 0 {} else if b == 1 {} else if b == 2 {} else {}
    }
    assert(v == p * (q * mp) + w) by (nonlinear_arith) requires v == m * q + w, mp * p == m;
    vstd::arithmetic::div_mod::lemma_fundamental_div_mod(w, p);
    assert(v == p * (q * mp + w / p) + w % p) by (nonlinear_arith)
        requires v == p * (q * mp) + w, w == p * (w / p) + w % p;
    vstd::arithmetic::div_mod::lemma_mod_bound(w, p);
    vstd::arithmetic::div_mod::lemma_fundamental_div_mod_converse(v, p, q * mp + w / p, w % p);
    assert(v / p == q * mp + w / p);
    assert(mp % 256 == 0) by {
        if b == 0 {} else if b == 1 {} else if b == 2 {} else {}
    }
    let k = mp / 256;
    assert(q * mp == 256 * (q * k)) by (nonlinear_arith) requires mp == 256 * k;
    vstd::arithmetic::div_mod::lemma_mod_multiples_vanish(q * k, w / p, 256);
}

/// The low 64 bits of a signed value, as an unsigned value.
pub fn wrap64_of(v: i64) -> (r: u64)
    ensures r == wrap64(v as int),
{
    if v >= 0 {
        v as u64
    } else {
        let r = (v + 0x7fff_ffff_ffff_ffff + 1) as u64 + 0x8000_0000_0000_0000;
        proof {
            vstd::arithmetic::div_mod::lemma_fundamental_div_mod_converse(v as int, 0x1_0000_0000_0000_0000, -1, r as int);
        }
        r
    }
}

/// Exec LINEAR_WIDE reconstruction.
pub fn linear_wide_track(width: u8, count: u16, start: i64, step: i64, sectors: usize) -> (v: Vec<u8>)
    ensures v@ == render_linear_wide(width, count as int, start as int, step as int, sectors as int),
{
    let w: usize = if width == 4 { 4 } else { 2 };
    let ghost len: int = if count * w > sectors { sectors as int } else { count * w };
    let mut v: Vec<u8> = Vec::new();
    let mut i: u16 = 0;
    let mut cur: u64 = wrap64_of(start);
    let step_u: u64 = wrap64_of(step);
    while i < count
        invariant
            w == (if width == 4 { 4usize } else { 2usize }),
            i <= count,
            cur == wrap64(start + i * step),
            step_u == wrap64(step as int),
            v@ == truncated(Seq::new((i * w) as nat, |k: int| wide_byte(start as int, step as int, w as int, k)), sectors as int),
        decreases count - i,
    {
        let ghost old_v = v@;
        let mut b: usize = 0;
        proof { vstd::arithmetic::power::lemma_pow0(256); }
        let mut word = cur;
        while b < w
            invariant
                w == (if width == 4 { 4usize } else { 2usize }),
                b <= w,
                i < count,
                cur == wrap64(start + i * step),
                word as int == (cur as int) / vstd::arithmetic::power::pow(256, b as nat),
                v@ == truncated(Seq::new((i * w + b) as nat, |k: int| wide_byte(start as int, step as int, w as int, k)), sectors as int),
            decreases w - b,
        {
            proof {
                lemma_byte_of_wrapped(start + i * step, b as nat);
                let k = i * w + b;
                vstd::arithmetic::div_mod::lemma_fundamental_div_mod_converse(k, w as int, i as int, b as int);
                assert(wide_byte(start as int, step as int, w as int, k) == ((word as int) % 256) as u8);
                let t = Seq::new(k as nat, |j: int| wide_byte(start as int, step as int, w as int, j));
                let t2 = Seq::new((k + 1) as nat, |j: int| wide_byte(start as int, step as int, w as int, j));
                assert(t2 =~= t.push(wide_byte(start as int, step as int, w as int, k)));
                if t.len() >= sectors {
                    assert(truncated(t2, sectors as int) =~= truncated(t, sectors as int));
                } else {
                    assert(truncated(t2, sectors as int) =~= t2);
                }
                vstd::arithmetic::power::lemma_pow_adds(256, b as nat, 1);
                vstd::arithmetic::power::lemma_pow1(256);
                vstd::arithmetic::power::lemma_pow_positive(256, b as nat);
                vstd::arithmetic::div_mod::lemma_div_denominator(cur as int, vstd::arithmetic::power::pow(256, b as nat), 256);
            }
            if v.len() < sectors {
                v.push((word % 256) as u8);
            }
            word = word / 256;
            b += 1;
        }
        proof {
            assert((i + 1) * w == i * w + w) by (nonlinear_arith);
            let m: int = 0x1_0000_0000_0000_0000;
            vstd::arithmetic::div_mod::lemma_add_mod_noop(start + i * step, step as int, m);
            assert(start + (i + 1) * step == (start + i * step) + step) by (nonlinear_arith);
        }
        cur = ((cur as u128 + step_u as u128) % 0x1_0000_0000_0000_0000) as u64;
        i += 1;
    }
    proof {
        assert(count * w == (if width == 4 { 4 * count } else { 2 * count }));
        assert(v@ =~= render_linear_wide(width, count as int, start as int, step as int, sectors as int));
    }
    v
}

// ---------------------------------------------------------------- XOR_MASK

/// XOR of every byte with the mask.
pub open spec fn xor_all(s: Seq<u8>, mask: u8) -> Seq<u8> {
    Seq::new(s.len(), |i: int| s[i] ^ mask)
}

/// Exec XOR of every byte.
pub fn xor_track(s: &[u8], mask: u8) -> (v: Vec<u8>)
    ensures v@ == xor_all(s@, mask),
{
    let mut v: Vec<u8> = Vec::with_capacity(s.len());
    let mut i: usize = 0;
    while i < s.len()
        invariant i <= s.len(), v@ =~= Seq::new(i as nat, |k: int| s@[k] ^ mask),
        decreases s.len() - i,
    {
        v.push(s[i] ^ mask);
        i += 1;
    }
    v
}


// ---------------------------------------------------------------- SPARSE

/// Write each `(index, value)` in order over `base`, skipping indices past
/// its end.
pub open spec fn sparse_apply(base: Seq<u8>, entries: Seq<(u16, u8)>) -> Seq<u8>
    decreases entries.len(),
{
    if entries.len() == 0 {
        base
    } else {
        let t = sparse_apply(base, entries.drop_last());
        let e = entries.last();
        if (e.0 as int) < t.len() { t.update(e.0 as int, e.1) } else { t }
    }
}

/// SPARSE: `sectors` copies of `fill` with the exceptions written over.
pub open spec fn render_sparse(fill: u8, entries: Seq<(u16, u8)>, sectors: int) -> Seq<u8> {
    sparse_apply(render_const(fill, sectors), entries)
}

/// Exec SPARSE reconstruction.
pub fn sparse_track(fill: u8, entries: &Vec<(u16, u8)>, sectors: usize) -> (v: Vec<u8>)
    ensures v@ == render_sparse(fill, entries@, sectors as int),
{
    let mut v = crate::bytes::filled(fill, sectors);
    let mut k: usize = 0;
    while k < entries.len()
        invariant
            k <= entries.len(),
            v@ == sparse_apply(render_const(fill, sectors as int), entries@.subrange(0, k as int)),
            v@.len() == sectors,
        decreases entries.len() - k,
    {
        let (idx, val) = entries[k];
        proof {
            assert(entries@.subrange(0, k + 1).drop_last() =~= entries@.subrange(0, k as int));
            assert(entries@.subrange(0, k + 1).last() == entries@[k as int]);
        }
        if (idx as usize) < v.len() {
            v.set(idx as usize, val);
        }
        k += 1;
    }
    proof { assert(entries@.subrange(0, entries.len() as int) =~= entries@); }
    v
}

// ---------------------------------------------------------------- PIECEWISE_LINEAR

/// End index of segment `k`: the next segment's start, or `sectors` for the last.
pub open spec fn segment_end(segs: Seq<(u16, i16, i16)>, k: int, sectors: int) -> int {
    if k + 1 < segs.len() { segs[k + 1].0 as int } else { sectors }
}

/// The track after writing segments `0..k`, or `None` when a segment runs
/// past the end of the track (the reconstruction fails there).
pub open spec fn piecewise_state(segs: Seq<(u16, i16, i16)>, sectors: int, k: int) -> Option<Seq<u8>>
    decreases k,
{
    if k <= 0 {
        Some(render_const(0, sectors))
    } else {
        match piecewise_state(segs, sectors, k - 1) {
            None => None,
            Some(prev) => {
                let seg = segs[k - 1];
                let start = seg.0 as int;
                let end = segment_end(segs, k - 1, sectors);
                if start < end && end > sectors {
                    None
                } else {
                    Some(Seq::new(sectors as nat, |i: int|
                        if start <= i < end { linear_byte(seg.1 as int, seg.2 as int, i - start) } else { prev[i] }))
                }
            }
        }
    }
}

/// PIECEWISE_LINEAR: each segment fills from its start to the next start.
pub open spec fn render_piecewise(segs: Seq<(u16, i16, i16)>, sectors: int) -> Option<Seq<u8>> {
    piecewise_state(segs, sectors, segs.len() as int)
}

/// Exec PIECEWISE_LINEAR reconstruction.
pub fn piecewise_track(segs: &Vec<(u16, i16, i16)>, sectors: usize) -> (v: Vec<u8>)
    requires render_piecewise(segs@, sectors as int) is Some,
    ensures v@ == render_piecewise(segs@, sectors as int)->0,
{
    let mut v = crate::bytes::filled(0, sectors);
    let mut k: usize = 0;
    proof {
        lemma_piecewise_prefix_some(segs@, sectors as int, segs@.len() as int);
    }
    while k < segs.len()
        invariant
            k <= segs.len(),
            forall|j: int| 0 <= j <= segs@.len() ==> (#[trigger] piecewise_state(segs@, sectors as int, j)) is Some,
            v@ == piecewise_state(segs@, sectors as int, k as int)->0,
            v@.len() == sectors,
        decreases segs.len() - k,
    {
        let (start_idx, start_val, step) = segs[k];
        let end: usize = if k + 1 < segs.len() { segs[k + 1].0 as usize } else { sectors };
        let ghost prev = v@;
        let ghost next = piecewise_state(segs@, sectors as int, k + 1)->0;
        proof {
            assert(piecewise_state(segs@, sectors as int, k + 1) is Some);
        }
        let mut i: usize = start_idx as usize;
        let mut cur = low_byte_of(start_val as i64);
        let step_b = low_byte_of(step as i64);
        proof { assert(0 * (step as int) == 0); }
        while i < end
            invariant
                start_idx <= i,
                i <= end || i == start_idx,
                end == segment_end(segs@, k as int, sectors as int),
                (start_idx as int) < end ==> end <= sectors,
                i < end ==> end <= sectors,
                v@.len() == sectors,
                cur == linear_byte(start_val as int, step as int, i - start_idx),
                step_b == low_byte(step as int),
                forall|j: int| 0 <= j < sectors ==> #[trigger] v@[j] ==
                    if start_idx <= j < i { linear_byte(start_val as int, step as int, j - start_idx) } else { prev[j] },
            decreases end - i,
        {
            v.set(i, cur);
            proof { lemma_linear_next(start_val as int, step as int, i - start_idx, cur, step_b); }
            cur = ((cur as u16 + step_b as u16) % 256) as u8;
            i += 1;
        }
        proof {
            let seg = segs@[k as int];
            assert(seg == (start_idx, start_val, step));
            assert(next == Seq::new(sectors as nat, |j: int|
                if start_idx <= j < end { linear_byte(start_val as int, step as int, j - start_idx) } else { prev[j] }));
            assert(v@ =~= next);
        }
        k += 1;
    }
    v
}

proof fn lemma_piecewise_prefix_some(segs: Seq<(u16, i16, i16)>, sectors: int, k: int)
    requires 0 <= k, piecewise_state(segs, sectors, k) is Some,
    ensures forall|j: int| 0 <= j <= k ==> (#[trigger] piecewise_state(segs, sectors, j)) is Some,
    decreases k,
{
    if k > 0 {
        lemma_piecewise_prefix_some(segs, sectors, k - 1);
    }
}

// ---------------------------------------------------------------- MIRROR

/// MIRROR: the half followed by its reverse.
pub open spec fn render_mirror(half: Seq<u8>) -> Seq<u8> {
    Seq::new((2 * half.len()) as nat, |i: int|
        if i < half.len() { half[i] } else { half[2 * half.len() - 1 - i] })
}

/// Exec MIRROR reconstruction.
pub fn mirror_track(half: &[u8]) -> (v: Vec<u8>)
    ensures v@ == render_mirror(half@),
{
    let mut v = crate::bytes::copy_bytes(half);
    let mut i: usize = half.len();
    while i > 0
        invariant
            i <= half.len(),
            v@ =~= Seq::new((2 * half.len() - i) as nat, |k: int|
                if k < half.len() { half@[k] } else { half@[2 * half.len() - 1 - k] }),
        decreases i,
    {
        i -= 1;
        v.push(half[i]);
    }
    v
}

// ---------------------------------------------------------------- INTERLEAVED_LINEAR

/// Byte `k` of two interleaved arithmetic sequences.
pub open spec fn interleaved_byte(start_a: int, step_a: int, start_b: int, step_b: int, k: int) -> u8 {
    if k % 2 == 0 { linear_byte(start_a, step_a, k / 2) } else { linear_byte(start_b, step_b, k / 2) }
}

/// INTERLEAVED_LINEAR: `count` pairs, cut to `sectors` bytes.
pub open spec fn render_interleaved(count: int, start_a: int, step_a: int, start_b: int, step_b: int, sectors: int) -> Seq<u8> {
    truncated(Seq::new((2 * count) as nat, |k: int| interleaved_byte(start_a, step_a, start_b, step_b, k)), sectors)
}

/// Exec INTERLEAVED_LINEAR reconstruction.
pub fn interleaved_track(count: u16, start_a: i16, step_a: i16, start_b: i16, step_b: i16, sectors: usize) -> (v: Vec<u8>)
    ensures v@ == render_interleaved(count as int, start_a as int, step_a as int, start_b as int, step_b as int, sectors as int),
{
    let a = linear_track(start_a, step_a, count as usize);
    let b = linear_track(start_b, step_b, count as usize);
    let mut v: Vec<u8> = Vec::new();
    let mut i: usize = 0;
    let ghost full = Seq::new((2 * count) as nat, |k: int| interleaved_byte(start_a as int, step_a as int, start_b as int, step_b as int, k));
    while i < count as usize
        invariant
            i <= count,
            a@ == render_linear(start_a as int, step_a as int, count as int),
            b@ == render_linear(start_b as int, step_b as int, count as int),
            full == Seq::new((2 * count) as nat, |k: int| interleaved_byte(start_a as int, step_a as int, start_b as int, step_b as int, k)),
            v@ == truncated(full.subrange(0, 2 * i), sectors as int),
        decreases count - i,
    {
        proof {
            vstd::arithmetic::div_mod::lemma_fundamental_div_mod_converse(2 * i, 2, i as int, 0);
            vstd::arithmetic::div_mod::lemma_fundamental_div_mod_converse(2 * i + 1, 2, i as int, 1);
            let t = full.subrange(0, 2 * i);
            let t1 = full.subrange(0, 2 * i + 1);
            let t2 = full.subrange(0, 2 * i + 2);
            assert(t1 =~= t.push(a@[i as int]));
            assert(t2 =~= t1.push(b@[i as int]));
            if t.len() >= sectors {
                assert(truncated(t1, sectors as int) =~= truncated(t, sectors as int));
            } else {
                assert(truncated(t1, sectors as int) =~= t1);
            }
            if t1.len() >= sectors {
                assert(truncated(t2, sectors as int) =~= truncated(t1, sectors as int));
            } else {
                assert(truncated(t2, sectors as int) =~= t2);
            }
        }
        if v.len() < sectors { v.push(a[i]); }
        if v.len() < sectors { v.push(b[i]); }
        i += 1;
    }
    proof { assert(full.subrange(0, 2 * count) =~= full); }
    v
}

// ---------------------------------------------------------------- DELTA_RLE

/// `start`, then each run `(delta, count)` adds `delta` to the last value
/// `count` times.
pub open spec fn delta_rle_expand(start: u8, runs: Seq<(i8, u8)>) -> Seq<u8>
    decreases runs.len(),
{
    if runs.len() == 0 {
        seq![start]
    } else {
        let t = delta_rle_expand(start, runs.drop_last());
        let r = runs.last();
        t + Seq::new(r.1 as nat, |j: int| low_byte(t.last() + (j + 1) * r.0))
    }
}

proof fn lemma_delta_rle_nonempty(start: u8, runs: Seq<(i8, u8)>)
    ensures delta_rle_expand(start, runs).len() >= 1,
    decreases runs.len(),
{
    if runs.len() > 0 { lemma_delta_rle_nonempty(start, runs.drop_last()); }
}

/// DELTA_RLE: the expanded runs, cut to `sectors` bytes.
pub open spec fn render_delta_rle(start: u8, runs: Seq<(i8, u8)>, sectors: int) -> Seq<u8> {
    truncated(delta_rle_expand(start, runs), sectors)
}

/// Exec DELTA_RLE expansion.
pub fn delta_rle_track(start: u8, runs: &Vec<(i8, u8)>, sectors: usize) -> (v: Vec<u8>)
    ensures v@ == render_delta_rle(start, runs@, sectors as int),
{
    let mut full: Vec<u8> = Vec::new();
    full.push(start);
    let mut k: usize = 0;
    proof { assert(runs@.subrange(0, 0) =~= Seq::<(i8, u8)>::empty()); }
    while k < runs.len()
        invariant
            k <= runs.len(),
            full@ == delta_rle_expand(start, runs@.subrange(0, k as int)),
            full@.len() >= 1,
        decreases runs.len() - k,
    {
        let (d, count) = runs[k];
        let ghost before = full@;
        let last = full[full.len() - 1];
        let db = low_byte_of(d as i64);
        let mut cur = last;
        let mut j: u8 = 0;
        proof {
            assert(runs@.subrange(0, k + 1).drop_last() =~= runs@.subrange(0, k as int));
            assert(runs@.subrange(0, k + 1).last() == runs@[k as int]);
            vstd::arithmetic::div_mod::lemma_small_mod(last as nat, 256);
        }
        while j < count
            invariant
                j <= count,
                before.len() >= 1,
                last == before.last(),
                db == low_byte(d as int),
                cur == low_byte(last + j * d),
                full@ =~= before + Seq::new(j as nat, |i: int| low_byte(last + (i + 1) * d)),
            decreases count - j,
        {
            proof {
                vstd::arithmetic::div_mod::lemma_add_mod_noop(last + j * d, d as int, 256);
                assert(last + (j + 1) * d == (last + j * d) + d) by (nonlinear_arith);
            }
            cur = ((cur as u16 + db as u16) % 256) as u8;
            full.push(cur);
            j += 1;
        }
        k += 1;
        proof { lemma_delta_rle_nonempty(start, runs@.subrange(0, k as int)); }
    }
    proof { assert(runs@.subrange(0, runs.len() as int) =~= runs@); }
    if full.len() > sectors {
        full.truncate(sectors);
    }
    full
}

// ---------------------------------------------------------------- BIT_PACKED

/// The divisor that isolates bit `r` (0 = most significant) of a byte.
pub open spec fn bit_divisor(r: int) -> int {
    if r == 0 { 128 } else if r == 1 { 64 } else if r == 2 { 32 } else if r == 3 { 16 }
    else if r == 4 { 8 } else if r == 5 { 4 } else if r == 6 { 2 } else { 1 }
}

/// Bit number `p` of the packed stream, most significant bit of each byte first.
pub open spec fn packed_bit(packed: Seq<u8>, p: int) -> int {
    (packed[p / 8] as int / bit_divisor(p % 8)) % 2
}

/// Value `i` after reading its first `b` bits, shifted into a byte.
pub open spec fn packed_value(packed: Seq<u8>, bits: int, i: int, b: int) -> int
    decreases b,
{
    if b <= 0 { 0 } else { (packed_value(packed, bits, i, b - 1) * 2 + packed_bit(packed, i * bits + b - 1)) % 256 }
}

/// Number of packed bytes holding `sectors` values of `bits` bits.
pub open spec fn packed_len(sectors: int, bits: int) -> int {
    (sectors * bits + 7) / 8
}

/// BIT_PACKED: `sectors` values of `bits` bits each.
pub open spec fn render_bit_packed(bits: u8, packed: Seq<u8>, sectors: int) -> Seq<u8> {
    Seq::new(sectors as nat, |i: int| packed_value(packed, bits as int, i, bits as int) as u8)
}

fn bit_divisor_of(r: usize) -> (d: u8)
    requires r < 8,
    ensures d == bit_divisor(r as int), d > 0,
{
    if r == 0 { 128 } else if r == 1 { 64 } else if r == 2 { 32 } else if r == 3 { 16 }
    else if r == 4 { 8 } else if r == 5 { 4 } else if r == 6 { 2 } else { 1 }
}

/// Exec BIT_PACKED reconstruction.
pub fn bit_packed_track(bits: u8, packed: &[u8], sectors: usize) -> (v: Vec<u8>)
    requires
        sectors <= 65535,
        packed.len() >= packed_len(sectors as int, bits as int),
    ensures v@ == render_bit_packed(bits, packed@, sectors as int),
{
    let mut v: Vec<u8> = Vec::with_capacity(sectors);
    let mut i: usize = 0;
    let mut bit_pos: usize = 0;
    while i < sectors
        invariant
            sectors <= 65535,
            i <= sectors,
            bit_pos == i * bits,
            packed.len() >= packed_len(sectors as int, bits as int),
            v@ =~= Seq::new(i as nat, |k: int| packed_value(packed@, bits as int, k, bits as int) as u8),
        decreases sectors - i,
    {
        let mut val: u8 = 0;
        let mut b: u8 = 0;
        while b < bits
            invariant
                sectors <= 65535,
                i < sectors,
                b <= bits,
                bit_pos == i * bits + b,
                packed.len() >= packed_len(sectors as int, bits as int),
                val as int == packed_value(packed@, bits as int, i as int, b as int),
            decreases bits - b,
        {
            proof {
                assert(i * bits + b < sectors * bits) by (nonlinear_arith)
                    requires i < sectors, b < bits;
                assert(bit_pos / 8 < packed_len(sectors as int, bits as int)) by (nonlinear_arith)
                    requires bit_pos < sectors * bits;
                assert(sectors * bits <= 65535 * 255) by (nonlinear_arith) requires sectors <= 65535, bits <= 255;
                vstd::arithmetic::div_mod::lemma_mod_bound(bit_pos as int, 8);
            }
            let byte = packed[bit_pos / 8];
            let bit = (byte / bit_divisor_of(bit_pos % 8)) % 2;
            val = ((val as u16 * 2 + bit as u16) % 256) as u8;
            bit_pos += 1;
            b += 1;
        }
        v.push(val);
        i += 1;
        proof { assert(bit_pos == i * bits) by (nonlinear_arith) requires bit_pos == (i - 1) * bits + bits; }
    }
    v
}

// ---------------------------------------------------------------- MOD_ARITH

/// MOD_ARITH: `(a * i + b) mod m` truncated to a byte, for each position.
pub open spec fn render_mod_arith(a: int, b: int, m: int, sectors: int) -> Seq<u8> {
    Seq::new(sectors as nat, |i: int| low_byte((a * i + b) % m))
}

/// Exec MOD_ARITH reconstruction.
pub fn mod_arith_track(a: u16, b: u16, m: u16, sectors: usize) -> (v: Vec<u8>)
    requires m > 0, sectors <= 65535,
    ensures v@ == render_mod_arith(a as int, b as int, m as int, sectors as int),
{
    let mut v: Vec<u8> = Vec::with_capacity(sectors);
    let mut i: usize = 0;
    while i < sectors
        invariant
            m > 0, sectors <= 65535, i <= sectors,
            v@ =~= Seq::new(i as nat, |k: int| low_byte((a * k + b) % (m as int))),
        decreases sectors - i,
    {
        proof {
            assert(a * i <= 65535 * 65535) by (nonlinear_arith) requires a <= 65535, i <= 65535;
        }
        let x: u32 = (a as u32 * i as u32 + b as u32) % (m as u32);
        v.push((x % 256) as u8);
        i += 1;
    }
    v
}


// ---------------------------------------------------------------- FIBONACCI

/// The first `k` values (k >= 2) of `x[i] = c1 * x[i-1] + c2 * x[i-2]`
/// truncated to a byte, or `None` when a sum exceeds 16 bits (the
/// reconstruction overflows there).
pub open spec fn fib_values(s0: u8, s1: u8, c1: u8, c2: u8, k: int) -> Option<Seq<u8>>
    decreases k,
{
    if k <= 2 {
        Some(seq![s0, s1])
    } else {
        match fib_values(s0, s1, c1, c2, k - 1) {
            None => None,
            Some(prev) => {
                let x = c1 * prev[k - 2] + c2 * prev[k - 3];
                if x > 65535 { None } else { Some(prev.push(low_byte(x))) }
            }
        }
    }
}

proof fn lemma_fib_len(s0: u8, s1: u8, c1: u8, c2: u8, k: int)
    requires k >= 2,
    ensures fib_values(s0, s1, c1, c2, k) matches Some(v) ==> v.len() == k,
        forall|j: int| 2 <= j <= k ==> (fib_values(s0, s1, c1, c2, k) is Some ==> (#[trigger] fib_values(s0, s1, c1, c2, j)) is Some),
    decreases k,
{
    if k > 2 { lemma_fib_len(s0, s1, c1, c2, k - 1); }
}

/// FIBONACCI: `seed0` alone when the track has at most one sector, else the
/// `sectors` first values of the recurrence.
pub open spec fn render_fibonacci(s0: u8, s1: u8, c1: u8, c2: u8, sectors: int) -> Option<Seq<u8>> {
    if sectors <= 1 { Some(seq![s0]) } else { fib_values(s0, s1, c1, c2, sectors) }
}

/// Exec FIBONACCI reconstruction.
pub fn fibonacci_track(s0: u8, s1: u8, c1: u8, c2: u8, sectors: usize) -> (v: Vec<u8>)
    requires render_fibonacci(s0, s1, c1, c2, sectors as int) is Some,
    ensures v@ == render_fibonacci(s0, s1, c1, c2, sectors as int)->0,
{
    let mut v: Vec<u8> = Vec::new();
    v.push(s0);
    if sectors <= 1 {
        proof { assert(v@ =~= seq![s0]); }
        return v;
    }
    v.push(s1);
    proof { lemma_fib_len(s0, s1, c1, c2, sectors as int); assert(v@ =~= seq![s0, s1]); }
    let mut i: usize = 2;
    while i < sectors
        invariant
            2 <= i <= sectors,
            fib_values(s0, s1, c1, c2, sectors as int) is Some,
            forall|j: int| 2 <= j <= sectors ==> (#[trigger] fib_values(s0, s1, c1, c2, j)) is Some,
            v@ == fib_values(s0, s1, c1, c2, i as int)->0,
            v@.len() == i,
        decreases sectors - i,
    {
        proof {
            assert(fib_values(s0, s1, c1, c2, i + 1) is Some);
            lemma_fib_len(s0, s1, c1, c2, i as int);
        }
        let x: u32 = c1 as u32 * v[i - 1] as u32 + c2 as u32 * v[i - 2] as u32;
        v.push((x % 256) as u8);
        i += 1;
    }
    v
}

// ---------------------------------------------------------------- DELTA_WIDE

/// A byte read as a signed 8-bit value.
pub open spec fn as_i8(b: u8) -> int {
    if b < 128 { b as int } else { b - 256 }
}

/// A 16-bit value read as signed.
pub open spec fn as_i16(u: int) -> int {
    if u < 32768 { u } else { u - 65536 }
}

/// Delta `i`: one signed byte when `dw` is 1, else a signed 16-bit LE value.
pub open spec fn wide_delta(dw: u8, deltas: Seq<u8>, i: int) -> int {
    if dw == 1 { as_i8(deltas[i]) } else { as_i16(crate::bytes::le16(deltas, 2 * i)) }
}

/// Value `i` of a DELTA_WIDE track: the running sum modulo 2^32.
pub open spec fn wide_value(start: u32, dw: u8, deltas: Seq<u8>, i: int) -> int
    decreases i,
{
    if i <= 0 { start as int } else { (wide_value(start, dw, deltas, i - 1) + wide_delta(dw, deltas, i - 1)) % 0x1_0000_0000 }
}

/// Number of values of a DELTA_WIDE track.
pub open spec fn wide_count(width: u8, sectors: int) -> int {
    if width == 4 { sectors / 4 } else { sectors / 2 }
}

/// Number of delta bytes a DELTA_WIDE track reads.
pub open spec fn wide_delta_bytes(width: u8, dw: u8, sectors: int) -> int {
    (wide_count(width, sectors) - 1) * (if dw == 1 { 1int } else { 2int })
}

/// DELTA_WIDE: the values as 4-byte (width 4) or 2-byte little-endian words.
pub open spec fn render_delta_wide(width: u8, dw: u8, start: u32, deltas: Seq<u8>, sectors: int) -> Seq<u8> {
    let w: int = if width == 4 { 4 } else { 2 };
    Seq::new((wide_count(width, sectors) * w) as nat, |k: int| byte_at(wide_value(start, dw, deltas, k / w), (k % w) as nat))
}

/// Exec DELTA_WIDE reconstruction.
pub fn delta_wide_track(width: u8, dw: u8, start: u32, deltas: &[u8], sectors: usize) -> (v: Vec<u8>)
    requires
        wide_count(width, sectors as int) >= 1,
        deltas.len() >= wide_delta_bytes(width, dw, sectors as int),
    ensures v@ == render_delta_wide(width, dw, start, deltas@, sectors as int),
{
    let w: usize = if width == 4 { 4 } else { 2 };
    let count: usize = if width == 4 { sectors / 4 } else { sectors / 2 };
    let mut v: Vec<u8> = Vec::new();
    let mut cur: u32 = start;
    let mut i: usize = 0;
    while i < count
        invariant
            w == (if width == 4 { 4usize } else { 2usize }),
            count == wide_count(width, sectors as int),
            count >= 1,
            deltas.len() >= wide_delta_bytes(width, dw, sectors as int),
            i <= count,
            i < count ==> cur == wide_value(start, dw, deltas@, i as int),
            v@ =~= Seq::new((i * w) as nat, |k: int| byte_at(wide_value(start, dw, deltas@, k / (w as int)), (k % (w as int)) as nat)),
        decreases count - i,
    {
        let mut b: usize = 0;
        let mut word = cur;
        proof { vstd::arithmetic::power::lemma_pow0(256); }
        while b < w
            invariant
                w == (if width == 4 { 4usize } else { 2usize }),
                b <= w,
                i < count,
                cur == wide_value(start, dw, deltas@, i as int),
                word as int == (cur as int) / vstd::arithmetic::power::pow(256, b as nat),
                v@ =~= Seq::new((i * w + b) as nat, |k: int| byte_at(wide_value(start, dw, deltas@, k / (w as int)), (k % (w as int)) as nat)),
            decreases w - b,
        {
            proof {
                let k = i * w + b;
                vstd::arithmetic::div_mod::lemma_fundamental_div_mod_converse(k, w as int, i as int, b as int);
                vstd::arithmetic::power::lemma_pow_adds(256, b as nat, 1);
                vstd::arithmetic::power::lemma_pow1(256);
                vstd::arithmetic::power::lemma_pow_positive(256, b as nat);
                vstd::arithmetic::div_mod::lemma_div_denominator(cur as int, vstd::arithmetic::power::pow(256, b as nat), 256);
            }
            v.push((word % 256) as u8);
            word = word / 256;
            b += 1;
        }
        proof { assert((i + 1) * w == i * w + w) by (nonlinear_arith); }
        if i + 1 < count {
            let delta: i64 = if dw == 1 {
                proof {
                    assert(i < wide_delta_bytes(width, dw, sectors as int)) by (nonlinear_arith)
                        requires i + 1 < count, wide_delta_bytes(width, dw, sectors as int) == (count - 1) * 1;
                }
                let d = deltas[i];
                if d < 128 { d as i64 } else { d as i64 - 256 }
            } else {
                proof {
                    assert(2 * i + 2 <= wide_delta_bytes(width, dw, sectors as int)) by (nonlinear_arith)
                        requires i + 1 < count, wide_delta_bytes(width, dw, sectors as int) == (count - 1) * 2;
                }
                let u = crate::bytes::read_u16(deltas, 2 * i);
                if u < 32768 { u as i64 } else { u as i64 - 65536 }
            };
            let next: i64 = cur as i64 + delta + 0x1_0000_0000;
            cur = (next % 0x1_0000_0000) as u32;
            proof {
                vstd::arithmetic::div_mod::lemma_mod_add_multiples_vanish(cur as int + delta - 0x1_0000_0000 + 0x1_0000_0000 - 0x1_0000_0000 + 0x1_0000_0000 - 0x1_0000_0000, 0x1_0000_0000);
                vstd::arithmetic::div_mod::lemma_mod_add_multiples_vanish(wide_value(start, dw, deltas@, i as int) + delta, 0x1_0000_0000);
            }
        }
        i += 1;
    }
    proof {
        assert(count * w == wide_count(width, sectors as int) * (if width == 4 { 4int } else { 2int }));
    }
    v
}

// ---------------------------------------------------------------- DIFF_TABLE

/// Entry `j` of the `l`-th forward difference of the initial values.
pub open spec fn diff_initial(init: Seq<u8>, l: nat, j: int) -> int
    decreases l,
{
    if l == 0 { init[j] as int } else { diff_initial(init, (l - 1) as nat, j + 1) - diff_initial(init, (l - 1) as nat, j) }
}

/// Entry `j` of difference level `l` of a DIFF_TABLE track: the initial
/// differences, then each level extended by adding the level below it,
/// with the deepest level held at `diff`.
pub open spec fn diff_level(init: Seq<u8>, order: int, diff: int, l: int, j: int) -> int
    decreases j,
{
    if j <= order - l {
        diff_initial(init, l as nat, j)
    } else if l >= order || j <= 0 {
        diff
    } else {
        diff_level(init, order, diff, l, j - 1) + diff_level(init, order, diff, l + 1, j - 1)
    }
}

pub open spec fn in_i32(v: int) -> bool {
    -0x8000_0000 <= v < 0x8000_0000
}

/// Number of values added after the initial ones.
pub open spec fn diff_steps(order: int, sectors: int) -> int {
    if sectors > order + 1 { sectors - (order + 1) } else { 0 }
}

/// Every difference the reconstruction computes fits in 32 bits.
pub open spec fn diff_table_fits(init: Seq<u8>, order: int, diff: int, sectors: int) -> bool {
    &&& forall|l: int, j: int| 1 <= l <= order && 0 <= j <= order - l ==> in_i32(#[trigger] diff_initial(init, l as nat, j))
    &&& forall|l: int, j: int| 0 <= l < order && order - l < j <= order - l + diff_steps(order, sectors)
            ==> in_i32(#[trigger] diff_level(init, order, diff, l, j))
}

/// DIFF_TABLE: `sectors` values of the difference table, or `None` when a
/// difference overflows 32 bits.
pub open spec fn render_diff_table(order: u8, init: Seq<u8>, diff: i32, sectors: int) -> Option<Seq<u8>> {
    if diff_table_fits(init, order as int, diff as int, sectors) {
        Some(Seq::new(sectors as nat, |j: int| low_byte(diff_level(init, order as int, diff as int, 0, j))))
    } else {
        None
    }
}

/// Exec DIFF_TABLE reconstruction.
pub fn diff_table_track(order: u8, init: &[u8], diff: i32, sectors: usize) -> (v: Vec<u8>)
    requires
        init.len() == order as int + 1,
        render_diff_table(order, init@, diff, sectors as int) is Some,
    ensures v@ == render_diff_table(order, init@, diff, sectors as int)->0,
{
    let ghost o = order as int;
    let ghost d = diff as int;
    // col[l] holds the last entry of difference level l.
    let mut col: Vec<i32> = Vec::new();
    let mut row: Vec<i32> = Vec::new();
    let mut j: usize = 0;
    while j < init.len()
        invariant
            j <= init.len(),
            row@ =~= Seq::new(j as nat, |k: int| diff_initial(init@, 0, k) as i32),
        decreases init.len() - j,
    {
        row.push(init[j] as i32);
        j += 1;
    }
    col.push(row[row.len() - 1]);
    let mut l: usize = 1;
    while l <= order as usize
        invariant
            o == order as int, d == diff as int,
            init.len() == o + 1,
            1 <= l <= o + 1,
            diff_table_fits(init@, o, d, sectors as int),
            row@.len() == o + 2 - l,
            forall|k: int| 0 <= k < row@.len() ==> #[trigger] row@[k] as int == diff_initial(init@, (l - 1) as nat, k),
            col@.len() == l,
            forall|m: int| 0 <= m < l ==> #[trigger] col@[m] as int == diff_level(init@, o, d, m, o - m),
        decreases o + 1 - l,
    {
        let mut next: Vec<i32> = Vec::new();
        let mut k: usize = 0;
        while k + 1 < row.len()
            invariant
                o == order as int, d == diff as int,
                1 <= l <= o,
                row@.len() == o + 2 - l,
                diff_table_fits(init@, o, d, sectors as int),
                forall|q: int| 0 <= q < row@.len() ==> #[trigger] row@[q] as int == diff_initial(init@, (l - 1) as nat, q),
                next@.len() == k,
                k + 1 <= row@.len(),
                forall|q: int| 0 <= q < k ==> #[trigger] next@[q] as int == diff_initial(init@, l as nat, q),
            decreases row.len() - k,
        {
            proof {
                let li: int = l as int;
                let ki: int = k as int;
                assert(1 <= li <= o && 0 <= ki <= o - li);
                assert(in_i32(diff_initial(init@, li as nat, ki)));
                assert(diff_initial(init@, li as nat, ki) == diff_initial(init@, (li - 1) as nat, ki + 1) - diff_initial(init@, (li - 1) as nat, ki));
            }
            next.push(row[k + 1] - row[k]);
            k += 1;
        }
        row = next;
        proof {
            assert(diff_level(init@, o, d, l as int, o - l) == diff_initial(init@, l as nat, o - l));
        }
        col.push(row[row.len() - 1]);
        l += 1;
    }
    let mut v: Vec<u8> = Vec::new();
    let mut i: usize = 0;
    while i < init.len() && i < sectors
        invariant
            o == order as int, d == diff as int,
            init.len() == o + 1,
            i <= init.len(),
            i <= sectors,
            v@ =~= Seq::new(i as nat, |q: int| low_byte(diff_level(init@, o, d, 0, q))),
        decreases init.len() - i,
    {
        proof { vstd::arithmetic::div_mod::lemma_small_mod(init@[i as int] as nat, 256); }
        v.push(init[i]);
        i += 1;
    }
    let mut s: usize = 0;
    while v.len() < sectors
        invariant
            o == order as int, d == diff as int,
            init.len() == o + 1,
            col@.len() == o + 1,
            diff_table_fits(init@, o, d, sectors as int),
            v@.len() == (if sectors > o + 1 { o + 1 + s } else { sectors as int }),
            v@.len() <= sectors,
            s <= diff_steps(o, sectors as int),
            forall|m: int| 0 <= m <= o ==> #[trigger] col@[m] as int == diff_level(init@, o, d, m, o - m + s),
            forall|q: int| 0 <= q < v@.len() ==> #[trigger] v@[q] == low_byte(diff_level(init@, o, d, 0, q)),
        decreases sectors - v.len(),
    {
        col.set(order as usize, diff);
        proof {
            assert(s + 1 <= diff_steps(o, sectors as int));
            assert(diff_level(init@, o, d, o, o - o + s + 1) == d);
        }
        let mut m: usize = order as usize;
        while m > 0
            invariant
                o == order as int, d == diff as int,
                col@.len() == o + 1,
                m <= o,
                s + 1 <= diff_steps(o, sectors as int),
                diff_table_fits(init@, o, d, sectors as int),
                forall|q: int| m <= q <= o ==> #[trigger] col@[q] as int == diff_level(init@, o, d, q, o - q + s + 1),
                forall|q: int| 0 <= q < m ==> #[trigger] col@[q] as int == diff_level(init@, o, d, q, o - q + s),
            decreases m,
        {
            m -= 1;
            proof {
                assert(in_i32(diff_level(init@, o, d, m as int, o - m + s + 1)));
                assert(diff_level(init@, o, d, m as int, o - m + s + 1)
                    == diff_level(init@, o, d, m as int, o - m + s) + diff_level(init@, o, d, m + 1, o - (m + 1) + s + 1));
            }
            let sum = col[m] + col[m + 1];
            col.set(m, sum);
        }
        proof {
            assert(o - 0 + s + 1 == o + 1 + s);
            vstd::arithmetic::div_mod::lemma_fundamental_div_mod(col@[0] as int, 256);
        }
        v.push(low_byte_of(col[0] as i64));
        s += 1;
    }
    v
}

} // verus!
