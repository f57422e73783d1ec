//! Detectors: each decides whether a track follows one kind of function and,
//! when it does, finds the parameters that reconstruct it exactly.
use vstd::prelude::*;
use vstd::arithmetic::div_mod::lemma_fundamental_div_mod_converse;
use crate::render::{
    low_byte, linear_byte, render_linear, render_const, rle_expand, render_rle, truncated,
    render_repeat, render_mirror, interleaved_byte, render_interleaved, low_byte_of,
    delta_rle_expand, render_delta_rle,
};

verus! {

// ---------------------------------------------------------------- steps

/// Difference between byte `k` and the byte before it.
pub open spec fn step_at(t: Seq<u8>, k: int) -> int {
    t[k] - t[k - 1]
}

/// Consecutive bytes of `t` in `[lo, hi)` differ by exactly `step`.
pub open spec fn steps_by(t: Seq<u8>, lo: int, hi: int, step: int) -> bool {
    forall|k: int| lo < k < hi ==> #[trigger] step_at(t, k) == step
}

/// Bytes that step evenly form an arithmetic sequence.
pub proof fn lemma_steps_values(t: Seq<u8>, lo: int, hi: int, step: int)
    requires 0 <= lo < hi <= t.len(), steps_by(t, lo, hi, step),
    ensures forall|i: int| lo <= i < hi ==> #[trigger] t[i] == t[lo] + (i - lo) * step,
    decreases hi - lo,
{
    if hi - lo > 1 {
        assert(steps_by(t, lo, hi - 1, step));
        lemma_steps_values(t, lo, hi - 1, step);
        assert(step_at(t, hi - 1) == step);
        assert(t[hi - 2] == t[lo] + (hi - 2 - lo) * step);
        assert((hi - 2 - lo) * step + step == (hi - 1 - lo) * step) by (nonlinear_arith);
        assert(t[hi - 1] == t[lo] + (hi - 1 - lo) * step);
    }
    assert(t[lo] == t[lo] + (lo - lo) * step);
}

/// A byte is its own low byte.
pub proof fn lemma_low_byte_small(v: int)
    requires 0 <= v < 256,
    ensures low_byte(v) == v,
{
    vstd::arithmetic::div_mod::lemma_small_mod(v as nat, 256);
}

/// Bytes that step evenly from `lo` render as a linear track.
pub proof fn lemma_steps_render(t: Seq<u8>, lo: int, hi: int, step: int)
    requires 0 <= lo < hi <= t.len(), steps_by(t, lo, hi, step),
    ensures forall|i: int| lo <= i < hi ==> #[trigger] linear_byte(t[lo] as int, step, i - lo) == t[i],
{
    lemma_steps_values(t, lo, hi, step);
    assert forall|i: int| lo <= i < hi implies #[trigger] linear_byte(t[lo] as int, step, i - lo) == t[i] by {
        assert(t[i] == t[lo] + (i - lo) * step);
        lemma_low_byte_small(t[i] as int);
    }
}

/// Whether bytes `lo..hi` step evenly by `step`.
fn check_steps(t: &[u8], lo: usize, hi: usize, step: i16) -> (r: bool)
    requires lo <= hi <= t.len(),
    ensures r == steps_by(t@, lo as int, hi as int, step as int),
{
    if hi - lo <= 1 {
        return true;
    }
    let mut k = lo + 1;
    while k < hi
        invariant lo < k <= hi <= t.len(), forall|j: int| lo < j < k ==> #[trigger] step_at(t@, j) == step,
        decreases hi - k,
    {
        if t[k] as i16 - t[k - 1] as i16 != step {
            assert(step_at(t@, k as int) != step);
            return false;
        }
        k += 1;
    }
    true
}

// ---------------------------------------------------------------- CONST

/// Every byte equals the first.
pub open spec fn is_const(t: Seq<u8>) -> bool {
    forall|i: int| 0 <= i < t.len() ==> #[trigger] t[i] == t[0]
}

/// CONST detection: the value, when every byte is the same.
pub fn detect_const(track: &[u8]) -> (r: Option<u8>)
    requires track.len() >= 1,
    ensures
        r == (if is_const(track@) { Some(track@[0]) } else { None::<u8> }),
        r matches Some(v) ==> render_const(v, track.len() as int) == track@,
{
    let first = track[0];
    let mut i: usize = 1;
    while i < track.len()
        invariant 1 <= i <= track.len(), first == track@[0], forall|k: int| 0 <= k < i ==> track@[k] == first,
        decreases track.len() - i,
    {
        if track[i] != first {
            return None;
        }
        i += 1;
    }
    proof { assert(render_const(first, track.len() as int) =~= track@); }
    Some(first)
}

// ---------------------------------------------------------------- LINEAR

/// LINEAR detection: first byte and constant step, when every step is the same.
pub open spec fn spec_detect_linear(t: Seq<u8>) -> Option<(i16, i16)> {
    if t.len() >= 2 && steps_by(t, 0, t.len() as int, t[1] - t[0]) {
        Some((t[0] as i16, (t[1] - t[0]) as i16))
    } else {
        None
    }
}

pub fn detect_linear(track: &[u8]) -> (r: Option<(i16, i16)>)
    ensures
        r == spec_detect_linear(track@),
        r matches Some((a, b)) ==> render_linear(a as int, b as int, track.len() as int) == track@,
{
    if track.len() < 2 {
        return None;
    }
    let start = track[0] as i16;
    let step = track[1] as i16 - start;
    if !check_steps(track, 0, track.len(), step) {
        return None;
    }
    proof {
        lemma_steps_render(track@, 0, track.len() as int, step as int);
        assert forall|i: int| 0 <= i < track.len() implies linear_byte(start as int, step as int, i) == track@[i] by {
            assert(linear_byte(track@[0] as int, step as int, i - 0) == track@[i]);
        }
        assert(render_linear(start as int, step as int, track.len() as int) =~= track@);
    }
    Some((start, step))
}

// ---------------------------------------------------------------- runs

/// Length of the greedy run that starts at `i`, counted on from `c`: equal
/// items, at most 255.
pub open spec fn run_len<A>(s: Seq<A>, i: int, c: int) -> int
    decreases 255 - c,
{
    if 1 <= c < 255 && i + c < s.len() && s[i + c] == s[i] { run_len(s, i, c + 1) } else { c }
}

pub proof fn lemma_run_len<A>(s: Seq<A>, i: int, c: int)
    requires 0 <= i, 1 <= c <= 255, i + c <= s.len(), forall|k: int| i <= k < i + c ==> #[trigger] s[k] == s[i],
    ensures
        c <= run_len(s, i, c) <= 255,
        i + run_len(s, i, c) <= s.len(),
        forall|k: int| i <= k < i + run_len(s, i, c) ==> #[trigger] s[k] == s[i],
    decreases 255 - c,
{
    if 1 <= c < 255 && i + c < s.len() && s[i + c] == s[i] {
        lemma_run_len(s, i, c + 1);
    }
}

/// The greedy runs of `s` from `i` on: `(item, count)`, each as long as it
/// can be up to 255.
pub open spec fn runs_from<A>(s: Seq<A>, i: int) -> Seq<(A, u8)>
    decreases s.len() - i,
{
    if i < 0 || i >= s.len() {
        Seq::empty()
    } else {
        proof { lemma_run_len(s, i, 1); }
        let c = run_len(s, i, 1);
        seq![(s[i], c as u8)] + runs_from(s, i + c)
    }
}

/// Length of the greedy run of bytes at `i`.
fn run_at_u8(s: &[u8], i: usize) -> (c: usize)
    requires i < s.len(),
    ensures c as int == run_len(s@, i as int, 1), 1 <= c <= 255, i + c <= s.len(),
{
    proof { lemma_run_len(s@, i as int, 1); }
    let mut c: usize = 1;
    while c < 255 && i + c < s.len() && s[i + c] == s[i]
        invariant 1 <= c <= 255, i + c <= s.len(), run_len(s@, i as int, c as int) == run_len(s@, i as int, 1),
        decreases 255 - c,
    {
        c += 1;
    }
    c
}

/// Length of the greedy run of signed bytes at `i`.
fn run_at_i8(s: &[i8], i: usize) -> (c: usize)
    requires i < s.len(),
    ensures c as int == run_len(s@, i as int, 1), 1 <= c <= 255, i + c <= s.len(),
{
    proof { lemma_run_len(s@, i as int, 1); }
    let mut c: usize = 1;
    while c < 255 && i + c < s.len() && s[i + c] == s[i]
        invariant 1 <= c <= 255, i + c <= s.len(), run_len(s@, i as int, c as int) == run_len(s@, i as int, 1),
        decreases 255 - c,
    {
        c += 1;
    }
    c
}

// ---------------------------------------------------------------- RLE

pub proof fn lemma_rle_expand_concat(a: Seq<(u8, u8)>, b: Seq<(u8, u8)>)
    ensures rle_expand(a + b) == rle_expand(a) + rle_expand(b),
    decreases b.len(),
{
    if b.len() == 0 {
        assert(a + b =~= a);
        assert(rle_expand(a) + rle_expand(b) =~= rle_expand(a));
    } else {
        assert((a + b).drop_last() =~= a + b.drop_last());
        assert((a + b).last() == b.last());
        lemma_rle_expand_concat(a, b.drop_last());
        let r = b.last();
        assert(rle_expand(a) + rle_expand(b) =~= (rle_expand(a) + rle_expand(b.drop_last()))
            + Seq::new(r.1 as nat, |i: int| r.0));
    }
}

/// The greedy runs of a track expand back to it.
pub proof fn lemma_runs_expand(t: Seq<u8>, i: int)
    requires 0 <= i <= t.len(),
    ensures rle_expand(runs_from(t, i)) == t.subrange(i, t.len() as int),
    decreases t.len() - i,
{
    if i < t.len() {
        lemma_run_len(t, i, 1);
        let c = run_len(t, i, 1);
        let head = seq![(t[i], c as u8)];
        assert(runs_from(t, i) == head + runs_from(t, i + c));
        lemma_runs_expand(t, i + c);
        lemma_rle_expand_concat(head, runs_from(t, i + c));
        assert(head.drop_last() =~= Seq::<(u8, u8)>::empty());
        assert(head.drop_last() == Seq::<(u8, u8)>::empty());
        assert(head.last() == (t[i], c as u8));
        assert(rle_expand(Seq::<(u8, u8)>::empty()) == Seq::<u8>::empty());
        assert(rle_expand(head) == rle_expand(head.drop_last()) + Seq::new(c as nat, |k: int| t[i]));
        assert(rle_expand(head) =~= Seq::new(c as nat, |k: int| t[i]));
        assert(rle_expand(head) =~= t.subrange(i, i + c));
        assert(t.subrange(i, i + c) + t.subrange(i + c, t.len() as int) =~= t.subrange(i, t.len() as int));
    } else {
        assert(t.subrange(i, t.len() as int) =~= Seq::<u8>::empty());
    }
}

/// RLE detection: the greedy runs, when there are fewer than half as many
/// runs as bytes.
pub open spec fn spec_detect_rle(t: Seq<u8>) -> Option<Seq<(u8, u8)>> {
    if 2 * runs_from(t, 0).len() < t.len() { Some(runs_from(t, 0)) } else { None }
}

pub fn detect_rle(track: &[u8]) -> (r: Option<Vec<(u8, u8)>>)
    ensures
        match r {
            Some(v) => spec_detect_rle(track@) == Some(v@),
            None => spec_detect_rle(track@) is None,
        },
        r matches Some(v) ==> render_rle(v@, track.len() as int) == track@,
{
    let mut runs: Vec<(u8, u8)> = Vec::new();
    let mut i: usize = 0;
    proof { assert(runs_from(track@, 0) =~= runs@ + runs_from(track@, 0)); }
    while i < track.len()
        invariant i <= track.len(), runs.len() <= i, runs_from(track@, 0) == runs@ + runs_from(track@, i as int),
        decreases track.len() - i,
    {
        let c = run_at_u8(track, i);
        let ghost rest = runs_from(track@, i + c);
        proof { assert(runs_from(track@, i as int) == seq![(track@[i as int], c as u8)] + rest); }
        runs.push((track[i], c as u8));
        proof { assert(runs_from(track@, 0) =~= runs@ + rest); }
        i += c;
    }
    proof { assert(runs@ + runs_from(track@, i as int) =~= runs@); }
    if runs.len() < track.len() - runs.len() {
        proof {
            lemma_runs_expand(track@, 0);
            assert(track@.subrange(0, track.len() as int) =~= track@);
        }
        Some(runs)
    } else {
        None
    }
}

// ---------------------------------------------------------------- REPEAT

pub open spec fn period_ok(t: Seq<u8>, p: int, i: int) -> bool {
    t[i] == t[i % p]
}

/// `t` repeats with period `p`.
pub open spec fn has_period(t: Seq<u8>, p: int) -> bool {
    forall|i: int| 0 <= i < t.len() ==> #[trigger] period_ok(t, p, i)
}

/// The smallest period from `p` up to half the length.
pub open spec fn first_period(t: Seq<u8>, p: int) -> Option<int>
    decreases t.len() / 2 + 1 - p,
{
    if p < 1 || p > t.len() / 2 { None } else if has_period(t, p) { Some(p) } else { first_period(t, p + 1) }
}

/// REPEAT detection: the shortest repeating unit, when it is shorter than a
/// third of the track.
pub open spec fn spec_detect_repeat(t: Seq<u8>) -> Option<Seq<u8>> {
    match first_period(t, 1) {
        Some(p) => if p < t.len() / 3 { Some(t.subrange(0, p)) } else { None },
        None => None,
    }
}

fn check_period(t: &[u8], p: usize) -> (r: bool)
    requires p >= 1,
    ensures r == has_period(t@, p as int),
{
    let mut i: usize = 0;
    while i < t.len()
        invariant i <= t.len(), p >= 1, forall|k: int| 0 <= k < i ==> #[trigger] period_ok(t@, p as int, k),
        decreases t.len() - i,
    {
        proof { if i < p { vstd::arithmetic::div_mod::lemma_small_mod(i as nat, p as nat); } }
        if t[i] != t[i % p] {
            assert(!period_ok(t@, p as int, i as int));
            return false;
        }
        i += 1;
    }
    true
}

pub fn detect_repeat(track: &[u8]) -> (r: Option<Vec<u8>>)
    ensures
        match r {
            Some(v) => spec_detect_repeat(track@) == Some(v@),
            None => spec_detect_repeat(track@) is None,
        },
        r matches Some(v) ==> 1 <= v.len() <= track.len() / 2 && render_repeat(v@, track.len() as int) == track@,
{
    let n = track.len();
    let mut p: usize = 1;
    while p <= n / 2
        invariant 1 <= p <= n / 2 + 1, n == track.len(), first_period(track@, 1) == first_period(track@, p as int),
        decreases n / 2 + 1 - p,
    {
        if check_period(track, p) {
            if p < n / 3 {
                let v = crate::bytes::copy_range(track, 0, p);
                proof {
                    assert forall|i: int| 0 <= i < n implies #[trigger] render_repeat(v@, n as int)[i] == track@[i] by {
                        assert(period_ok(track@, p as int, i));
                    }
                    assert(render_repeat(v@, n as int) =~= track@);
                }
                return Some(v);
            }
            return None;
        }
        p += 1;
    }
    None
}

// ---------------------------------------------------------------- MIRROR

/// The second half is the first half reversed.
pub open spec fn is_mirror(t: Seq<u8>) -> bool {
    forall|i: int| 0 <= i < t.len() / 2 ==> #[trigger] t[i] == t[t.len() - 1 - i]
}

/// MIRROR detection: the first half, when the track has an even length of
/// at least 8 and reads the same backwards.
pub open spec fn spec_detect_mirror(t: Seq<u8>) -> Option<Seq<u8>> {
    if t.len() >= 8 && t.len() % 2 == 0 && is_mirror(t) { Some(t.subrange(0, (t.len() / 2) as int)) } else { None }
}

pub fn detect_mirror(track: &[u8]) -> (r: Option<Vec<u8>>)
    ensures
        match r {
            Some(v) => spec_detect_mirror(track@) == Some(v@),
            None => spec_detect_mirror(track@) is None,
        },
        r matches Some(v) ==> render_mirror(v@) == track@,
{
    let n = track.len();
    if n < 8 || n % 2 != 0 {
        return None;
    }
    let half = n / 2;
    let mut i: usize = 0;
    while i < half
        invariant half == n / 2, n == track.len(), i <= half, forall|k: int| 0 <= k < i ==> #[trigger] track@[k] == track@[n - 1 - k],
        decreases half - i,
    {
        if track[i] != track[n - 1 - i] {
            return None;
        }
        i += 1;
    }
    let v = crate::bytes::copy_range(track, 0, half);
    proof {
        assert forall|k: int| 0 <= k < n implies #[trigger] render_mirror(v@)[k] == track@[k] by {
            if k >= half {
                let j = n - 1 - k;
                assert(track@[j] == track@[n - 1 - j]);
            }
        }
        assert(render_mirror(v@) =~= track@);
    }
    Some(v)
}

// ---------------------------------------------------------------- INTERLEAVED_LINEAR

/// Pair `i` of the track follows the two arithmetic sequences.
pub open spec fn pair_ok(t: Seq<u8>, sa: int, pa: int, sb: int, pb: int, i: int) -> bool {
    t[2 * i] == linear_byte(sa, pa, i) && t[2 * i + 1] == linear_byte(sb, pb, i)
}

/// INTERLEAVED_LINEAR detection: even bytes and odd bytes each follow an
/// arithmetic sequence set by their first two values.
pub open spec fn spec_detect_interleaved(t: Seq<u8>) -> Option<(u16, i16, i16, i16, i16)> {
    if t.len() >= 8 && t.len() % 2 == 0 {
        let sa = t[0] as int;
        let sb = t[1] as int;
        let pa = t[2] - t[0];
        let pb = t[3] - t[1];
        if (forall|i: int| 0 <= i < t.len() / 2 ==> #[trigger] pair_ok(t, sa, pa, sb, pb, i)) && 10 < t.len() {
            Some(((t.len() / 2) as u16, sa as i16, pa as i16, sb as i16, pb as i16))
        } else {
            None
        }
    } else {
        None
    }
}

pub fn detect_interleaved(track: &[u8]) -> (r: Option<(u16, i16, i16, i16, i16)>)
    requires track.len() <= 65535,
    ensures
        r == spec_detect_interleaved(track@),
        r matches Some((c, sa, pa, sb, pb)) ==>
            render_interleaved(c as int, sa as int, pa as int, sb as int, pb as int, track.len() as int) == track@,
{
    let n = track.len();
    if n < 8 || n % 2 != 0 {
        return None;
    }
    let count = n / 2;
    let sa = track[0] as i64;
    let sb = track[1] as i64;
    let pa = track[2] as i64 - sa;
    let pb = track[3] as i64 - sb;
    let mut i: usize = 0;
    while i < count
        invariant
            count == n / 2, n == track.len(), 8 <= n <= 65535, i <= count,
            -255 <= pa <= 255, -255 <= pb <= 255,
            sa == track@[0], sb == track@[1], pa == track@[2] - track@[0], pb == track@[3] - track@[1],
            forall|k: int| 0 <= k < i ==> #[trigger] pair_ok(track@, sa as int, pa as int, sb as int, pb as int, k),
        decreases count - i,
    {
        proof {
            assert(-0x10000000 <= i * pa <= 0x10000000) by (nonlinear_arith) requires i < 32768, -255 <= pa <= 255;
            assert(-0x10000000 <= i * pb <= 0x10000000) by (nonlinear_arith) requires i < 32768, -255 <= pb <= 255;
        }
        let ea = low_byte_of(sa + i as i64 * pa);
        let eb = low_byte_of(sb + i as i64 * pb);
        if track[2 * i] != ea || track[2 * i + 1] != eb {
            assert(!pair_ok(track@, sa as int, pa as int, sb as int, pb as int, i as int));
            return None;
        }
        i += 1;
    }
    if n <= 10 {
        return None;
    }
    proof {
        let s = Seq::new((2 * count) as nat, |k: int| interleaved_byte(sa as int, pa as int, sb as int, pb as int, k));
        assert forall|k: int| 0 <= k < n implies #[trigger] s[k] == track@[k] by {
            assert(pair_ok(track@, sa as int, pa as int, sb as int, pb as int, k / 2));
        }
        assert(s =~= track@);
    }
    Some((count as u16, sa as i16, pa as i16, sb as i16, pb as i16))
}

// ---------------------------------------------------------------- step sequences

/// Every step between neighbouring bytes fits in a signed byte.
pub open spec fn small_steps(t: Seq<u8>) -> bool {
    forall|k: int| 1 <= k < t.len() ==> -128 <= #[trigger] step_at(t, k) <= 127
}

/// The steps between neighbouring bytes, as signed bytes.
pub open spec fn step_seq(t: Seq<u8>) -> Seq<i8> {
    Seq::new((t.len() - 1) as nat, |k: int| step_at(t, k + 1) as i8)
}

/// The steps of a track, when each fits in a signed byte.
fn step_bytes(track: &[u8]) -> (r: Option<Vec<i8>>)
    requires track.len() >= 1,
    ensures
        r is Some <==> small_steps(track@),
        r matches Some(d) ==> d@ == step_seq(track@),
{
    let mut d: Vec<i8> = Vec::with_capacity(track.len() - 1);
    let mut k: usize = 1;
    while k < track.len()
        invariant
            1 <= k <= track.len(),
            forall|j: int| 1 <= j < k ==> -128 <= #[trigger] step_at(track@, j) <= 127,
            d@ =~= Seq::new((k - 1) as nat, |j: int| step_at(track@, j + 1) as i8),
        decreases track.len() - k,
    {
        let s = track[k] as i16 - track[k - 1] as i16;
        if s < -128 || s > 127 {
            assert(!(-128 <= step_at(track@, k as int) <= 127));
            return None;
        }
        d.push(s as i8);
        k += 1;
    }
    Some(d)
}

// ---------------------------------------------------------------- DELTA_RLE

pub proof fn lemma_delta_rle_first(s: u8, runs: Seq<(i8, u8)>)
    ensures delta_rle_expand(s, runs).len() >= 1, delta_rle_expand(s, runs)[0] == s,
    decreases runs.len(),
{
    if runs.len() > 0 { lemma_delta_rle_first(s, runs.drop_last()); }
}

pub proof fn lemma_delta_rle_concat(s: u8, a: Seq<(i8, u8)>, b: Seq<(i8, u8)>)
    ensures
        delta_rle_expand(s, a + b)
            == delta_rle_expand(s, a) + delta_rle_expand(delta_rle_expand(s, a).last(), b).drop_first(),
    decreases b.len(),
{
    lemma_delta_rle_first(s, a);
    let ea = delta_rle_expand(s, a);
    let l = ea.last();
    if b.len() == 0 {
        assert(a + b =~= a);
        assert(delta_rle_expand(l, b).drop_first() =~= Seq::<u8>::empty());
        assert(ea + Seq::<u8>::empty() =~= ea);
    } else {
        let b1 = b.drop_last();
        let r = b.last();
        assert((a + b).drop_last() =~= a + b1);
        assert((a + b).last() == r);
        lemma_delta_rle_concat(s, a, b1);
        lemma_delta_rle_first(l, b1);
        let e1 = delta_rle_expand(l, b1);
        let lhs_prev = delta_rle_expand(s, a + b1);
        assert(lhs_prev == ea + e1.drop_first());
        assert(lhs_prev.last() == e1.last()) by {
            if e1.len() == 1 { assert(e1.last() == l); } else { assert(lhs_prev.last() == e1.drop_first().last()); }
        }
        let tail = Seq::new(r.1 as nat, |j: int| low_byte(e1.last() + (j + 1) * r.0));
        assert(delta_rle_expand(l, b) == e1 + tail);
        assert((e1 + tail).drop_first() =~= e1.drop_first() + tail);
        assert(ea + (e1.drop_first() + tail) =~= (ea + e1.drop_first()) + tail);
    }
}

/// The greedy runs of the steps from `i` on expand, from byte `i`, back to
/// the rest of the track.
pub proof fn lemma_delta_runs_expand(t: Seq<u8>, i: int)
    requires t.len() >= 1, small_steps(t), 0 <= i < t.len(),
    ensures delta_rle_expand(t[i], runs_from(step_seq(t), i)) == t.subrange(i, t.len() as int),
    decreases t.len() - i,
{
    let ds = step_seq(t);
    if i < ds.len() {
        lemma_run_len(ds, i, 1);
        let c = run_len(ds, i, 1);
        let d = ds[i];
        let head = seq![(d, c as u8)];
        assert(runs_from(ds, i) == head + runs_from(ds, i + c));
        lemma_delta_rle_concat(t[i], head, runs_from(ds, i + c));
        // the run covers bytes i..=i+c
        assert(steps_by(t, i, i + c + 1, d as int)) by {
            assert forall|k: int| i < k < i + c + 1 implies #[trigger] step_at(t, k) == d as int by {
                assert(ds[k - 1] == ds[i]);
                assert(-128 <= step_at(t, k) <= 127);
                assert(-128 <= step_at(t, i + 1) <= 127);
            }
        }
        lemma_steps_values(t, i, i + c + 1, d as int);
        assert(head.drop_last() =~= Seq::<(i8, u8)>::empty());
        assert(head.drop_last() == Seq::<(i8, u8)>::empty());
        assert(head.last() == (d, c as u8));
        assert(delta_rle_expand(t[i], Seq::<(i8, u8)>::empty()) == seq![t[i]]);
        assert(seq![t[i]].last() == t[i]);
        let eh = delta_rle_expand(t[i], head);
        assert(eh == seq![t[i]] + Seq::new(c as nat, |j: int| low_byte(t[i] + (j + 1) * d)));
        assert(eh =~= t.subrange(i, i + c + 1)) by {
            assert forall|j: int| 0 <= j < c implies #[trigger] low_byte(t[i] + (j + 1) * d) == t[i + j + 1] by {
                assert(t[i + j + 1] == t[i] + (i + j + 1 - i) * d);
                lemma_low_byte_small(t[i + j + 1] as int);
            }
        }
        assert(eh.last() == t[i + c]);
        lemma_delta_runs_expand(t, i + c);
        assert(t.subrange(i + c, t.len() as int).drop_first() =~= t.subrange(i + c + 1, t.len() as int));
        assert(t.subrange(i, i + c + 1) + t.subrange(i + c + 1, t.len() as int) =~= t.subrange(i, t.len() as int));
    } else {
        assert(runs_from(ds, i) == Seq::<(i8, u8)>::empty());
        assert(t.subrange(i, t.len() as int) =~= seq![t[i]]);
    }
}

/// DELTA_RLE detection: the first byte and the greedy runs of the steps,
/// when every step fits in a signed byte and the runs are few enough.
pub open spec fn spec_detect_delta_rle(t: Seq<u8>) -> Option<(u8, Seq<(i8, u8)>)> {
    if t.len() >= 8 && small_steps(t) {
        let runs = runs_from(step_seq(t), 0);
        if 3 + 2 * runs.len() < t.len() && 2 * runs.len() < t.len() - 1 { Some((t[0], runs)) } else { None }
    } else {
        None
    }
}

pub fn detect_delta_rle(track: &[u8]) -> (r: Option<(u8, Vec<(i8, u8)>)>)
    requires track.len() <= 65535,
    ensures
        match r {
            Some((s, v)) => spec_detect_delta_rle(track@) == Some((s, v@)),
            None => spec_detect_delta_rle(track@) is None,
        },
        r matches Some((s, v)) ==> render_delta_rle(s, v@, track.len() as int) == track@,
{
    if track.len() < 8 {
        return None;
    }
    let ds = match step_bytes(track) {
        None => return None,
        Some(d) => d,
    };
    let mut runs: Vec<(i8, u8)> = Vec::new();
    let mut i: usize = 0;
    proof { assert(runs_from(ds@, 0) =~= runs@ + runs_from(ds@, 0)); }
    while i < ds.len()
        invariant i <= ds.len(), runs.len() <= i, runs_from(ds@, 0) == runs@ + runs_from(ds@, i as int),
        decreases ds.len() - i,
    {
        let c = run_at_i8(ds.as_slice(), i);
        let ghost rest = runs_from(ds@, i + c);
        proof { assert(runs_from(ds@, i as int) == seq![(ds@[i as int], c as u8)] + rest); }
        runs.push((ds[i], c as u8));
        proof { assert(runs_from(ds@, 0) =~= runs@ + rest); }
        i += c;
    }
    proof { assert(runs@ + runs_from(ds@, i as int) =~= runs@); }
    let n = track.len();
    if 3 + 2 * runs.len() < n && 2 * runs.len() < n - 1 {
        proof {
            lemma_delta_runs_expand(track@, 0);
            assert(track@.subrange(0, n as int) =~= track@);
        }
        Some((track[0], runs))
    } else {
        None
    }
}

// ---------------------------------------------------------------- DELTA

/// Running sums of the steps give back the bytes.
pub proof fn lemma_delta_sum(t: Seq<u8>, i: int)
    requires t.len() >= 1, small_steps(t), 0 <= i < t.len(),
    ensures crate::render::delta_sum(step_seq(t), i) == t[i] - t[0],
    decreases i,
{
    if i > 0 {
        lemma_delta_sum(t, i - 1);
        assert(-128 <= step_at(t, i) <= 127);
    }
}

/// DELTA detection: the first byte and all steps, when each step fits in a
/// signed byte and there are at most 8 different steps.
pub open spec fn spec_detect_delta(t: Seq<u8>) -> Option<(i16, Seq<i8>)> {
    if small_steps(t) && step_seq(t).to_set().len() <= 8 { Some((t[0] as i16, step_seq(t))) } else { None }
}

fn contains_i8(v: &Vec<i8>, x: i8) -> (r: bool)
    ensures r == v@.contains(x),
{
    let mut j: usize = 0;
    while j < v.len()
        invariant j <= v.len(), forall|k: int| 0 <= k < j ==> v@[k] != x,
        decreases v.len() - j,
    {
        if v[j] == x {
            assert(v@[j as int] == x);
            return true;
        }
        j += 1;
    }
    false
}

/// Number of different values in `d`.
fn distinct_count(d: &Vec<i8>) -> (r: usize)
    ensures r == d@.to_set().len(),
{
    let mut seen: Vec<i8> = Vec::new();
    let mut k: usize = 0;
    while k < d.len()
        invariant
            k <= d.len(),
            seen@.no_duplicates(),
            seen@.to_set() == d@.subrange(0, k as int).to_set(),
        decreases d.len() - k,
    {
        let x = d[k];
        let ghost before = seen@;
        proof {
            assert(d@.subrange(0, k + 1) =~= d@.subrange(0, k as int).push(x));
            d@.subrange(0, k as int).lemma_push_to_set_commute(x);
        }
        if !contains_i8(&seen, x) {
            seen.push(x);
            proof {
                before.lemma_push_to_set_commute(x);
                assert forall|a: int, b: int| 0 <= a < seen@.len() && 0 <= b < seen@.len() && a != b
                    implies seen@[a] != seen@[b] by {
                    if a == before.len() { assert(before.contains(seen@[b])) by { assert(before[b] == seen@[b]); } }
                    else if b == before.len() { assert(before.contains(seen@[a])) by { assert(before[a] == seen@[a]); } }
                }
            }
        } else {
            proof {
                assert(before.to_set().contains(x));
                assert(before.to_set().insert(x) =~= before.to_set());
            }
        }
        k += 1;
    }
    proof {
        assert(d@.subrange(0, d.len() as int) =~= d@);
        seen@.unique_seq_to_set();
    }
    seen.len()
}

pub fn detect_delta(track: &[u8]) -> (r: Option<(i16, Vec<i8>)>)
    requires track.len() >= 1,
    ensures
        match r {
            Some((s, v)) => spec_detect_delta(track@) == Some((s, v@)),
            None => spec_detect_delta(track@) is None,
        },
        r matches Some((s, v)) ==> crate::render::render_delta(s as int, v@) == track@,
{
    let ds = match step_bytes(track) {
        None => return None,
        Some(d) => d,
    };
    if distinct_count(&ds) > 8 {
        return None;
    }
    proof {
        assert forall|i: int| 0 <= i < track.len() implies
            #[trigger] low_byte(track@[0] + crate::render::delta_sum(ds@, i)) == track@[i] by {
            lemma_delta_sum(track@, i);
            lemma_low_byte_small(track@[i] as int);
        }
        assert(crate::render::render_delta(track@[0] as int, ds@) =~= track@);
    }
    Some((track[0] as i16, ds))
}

// ---------------------------------------------------------------- PIECEWISE_LINEAR

/// Start of segment `s` when `n` bytes are cut into `ns` equal segments.
pub open spec fn seg_start(n: int, ns: int, s: int) -> int {
    s * (n / ns)
}

/// End of segment `s`; the last segment takes the remainder.
pub open spec fn seg_end(n: int, ns: int, s: int) -> int {
    if s == ns - 1 { n } else { (s + 1) * (n / ns) }
}

/// Segment `s` steps evenly, by the step between its first two bytes.
pub open spec fn seg_linear(t: Seq<u8>, ns: int, s: int) -> bool {
    let lo = seg_start(t.len() as int, ns, s);
    steps_by(t, lo, seg_end(t.len() as int, ns, s), step_at(t, lo + 1))
}

/// The track cut into `ns` equal segments is linear in each, and the
/// segments are cheaper to store than the bytes.
pub open spec fn piece_fits(t: Seq<u8>, ns: int) -> bool {
    &&& (t.len() as int) / ns >= 4
    &&& forall|s: int| 0 <= s < ns ==> #[trigger] seg_linear(t, ns, s)
    &&& 1 + 6 * ns < t.len()
}

/// `(start index, first value, step)` of each of `ns` segments.
pub open spec fn piece_segments(t: Seq<u8>, ns: int) -> Seq<(u16, i16, i16)> {
    Seq::new(ns as nat, |s: int| {
        let lo = seg_start(t.len() as int, ns, s);
        (lo as u16, t[lo] as i16, step_at(t, lo + 1) as i16)
    })
}

/// The first segment count from `ns` up to 4 that fits.
pub open spec fn piece_from(t: Seq<u8>, ns: int) -> Option<Seq<(u16, i16, i16)>>
    decreases 5 - ns,
{
    if ns < 2 || ns > 4 { None } else if piece_fits(t, ns) { Some(piece_segments(t, ns)) } else { piece_from(t, ns + 1) }
}

/// PIECEWISE_LINEAR detection: 2, 3 or 4 equal segments (the last takes the
/// remainder), each linear, tried in that order.
pub open spec fn spec_detect_piecewise(t: Seq<u8>) -> Option<Seq<(u16, i16, i16)>> {
    if t.len() < 16 { None } else { piece_from(t, 2) }
}

pub proof fn lemma_seg_bounds(n: int, ns: int, s: int)
    requires 2 <= ns <= 4, n / ns >= 4, 0 <= s < ns,
    ensures
        0 <= seg_start(n, ns, s), seg_start(n, ns, s) + 4 <= seg_end(n, ns, s), seg_end(n, ns, s) <= n,
        s + 1 < ns ==> seg_end(n, ns, s) == seg_start(n, ns, s + 1),
{
    let l = n / ns;
    vstd::arithmetic::div_mod::lemma_fundamental_div_mod(n, ns);
    assert(ns * l <= n);
    assert(s * l >= 0) by (nonlinear_arith) requires s >= 0, l >= 0;
    assert((s + 1) * l == s * l + l) by (nonlinear_arith);
    if s + 1 < ns {
        assert((s + 1) * l <= ns * l) by (nonlinear_arith) requires s + 1 <= ns, l >= 0;
    } else {
        assert(s * l + l == ns * l) by (nonlinear_arith) requires s + 1 == ns;
    }
}

/// Track with bytes before `e` from `t` and zeros after.
pub open spec fn prefix_track(t: Seq<u8>, e: int) -> Seq<u8> {
    Seq::new(t.len(), |i: int| if i < e { t[i] } else { 0u8 })
}

proof fn lemma_piece_state(t: Seq<u8>, ns: int, k: int)
    requires piece_fits(t, ns), 2 <= ns <= 4, t.len() <= 65535, 0 <= k <= ns,
    ensures
        crate::render::piecewise_state(piece_segments(t, ns), t.len() as int, k)
            == Some(prefix_track(t, if k == 0 { 0 } else { seg_end(t.len() as int, ns, k - 1) })),
    decreases k,
{
    let n = t.len() as int;
    let segs = piece_segments(t, ns);
    if k == 0 {
        assert(render_const(0, n) =~= prefix_track(t, 0));
    } else {
        lemma_piece_state(t, ns, k - 1);
        lemma_seg_bounds(n, ns, k - 1);
        if k >= 2 { lemma_seg_bounds(n, ns, k - 2); }
        let lo = seg_start(n, ns, k - 1);
        let hi = seg_end(n, ns, k - 1);
        assert(seg_linear(t, ns, k - 1));
        lemma_steps_render(t, lo, hi, step_at(t, lo + 1));
        let seg = segs[k - 1];
        assert(seg.0 as int == lo);
        assert(seg.1 as int == t[lo]);
        assert(seg.2 as int == step_at(t, lo + 1));
        if k < ns {
            lemma_seg_bounds(n, ns, k);
            assert(crate::render::segment_end(segs, k - 1, n) == hi);
        } else {
            assert(crate::render::segment_end(segs, k - 1, n) == hi);
        }
        let prev_end = if k - 1 == 0 { 0 } else { seg_end(n, ns, k - 2) };
        assert(prev_end == lo);
        let next = Seq::new(n as nat, |i: int|
            if lo <= i < hi { linear_byte(seg.1 as int, seg.2 as int, i - lo) } else { prefix_track(t, prev_end)[i] });
        assert(next =~= prefix_track(t, hi));
    }
}

fn seg_linear_exec(track: &[u8], ns: usize, s: usize) -> (r: bool)
    requires 2 <= ns <= 4, track.len() / ns >= 4, s < ns, track.len() <= 65535,
    ensures r == seg_linear(track@, ns as int, s as int),
{
    proof { lemma_seg_bounds(track.len() as int, ns as int, s as int); }
    let n = track.len();
    let l = n / ns;
    let lo = s * l;
    let hi = if s == ns - 1 { n } else { (s + 1) * l };
    let step = track[lo + 1] as i16 - track[lo] as i16;
    check_steps(track, lo, hi, step)
}

pub fn detect_piecewise(track: &[u8]) -> (r: Option<Vec<(u16, i16, i16)>>)
    requires track.len() <= 65535,
    ensures
        match r {
            Some(v) => spec_detect_piecewise(track@) == Some(v@),
            None => spec_detect_piecewise(track@) is None,
        },
        r matches Some(v) ==> crate::render::render_piecewise(v@, track.len() as int) == Some(track@),
{
    let n = track.len();
    if n < 16 {
        return None;
    }
    let mut ns: usize = 2;
    while ns <= 4
        invariant 2 <= ns <= 5, n == track.len(), 16 <= n <= 65535, piece_from(track@, 2) == piece_from(track@, ns as int),
        decreases 5 - ns,
    {
        let l = n / ns;
        if l >= 4 {
            let mut all = true;
            let mut s: usize = 0;
            while s < ns
                invariant
                    2 <= ns <= 4, l == n / ns, l >= 4, n == track.len(), n <= 65535, s <= ns,
                    all ==> forall|j: int| 0 <= j < s ==> #[trigger] seg_linear(track@, ns as int, j),
                    !all ==> !(forall|j: int| 0 <= j < ns ==> #[trigger] seg_linear(track@, ns as int, j)),
                decreases ns - s,
            {
                if all && !seg_linear_exec(track, ns, s) {
                    all = false;
                }
                s += 1;
            }
            if all && 1 + 6 * ns < n {
                let mut segs: Vec<(u16, i16, i16)> = Vec::new();
                let mut k: usize = 0;
                while k < ns
                    invariant
                        2 <= ns <= 4, l == n / ns, l >= 4, n == track.len(), n <= 65535, k <= ns,
                        segs@ =~= piece_segments(track@, ns as int).subrange(0, k as int),
                    decreases ns - k,
                {
                    proof { lemma_seg_bounds(n as int, ns as int, k as int); }
                    let lo = k * l;
                    segs.push((lo as u16, track[lo] as i16, track[lo + 1] as i16 - track[lo] as i16));
                    k += 1;
                }
                proof {
                    assert(piece_fits(track@, ns as int));
                    assert(segs@ =~= piece_segments(track@, ns as int));
                    lemma_piece_state(track@, ns as int, ns as int);
                    assert(prefix_track(track@, seg_end(n as int, ns as int, ns - 1)) =~= track@);
                }
                return Some(segs);
            }
        }
        ns += 1;
    }
    None
}

// ---------------------------------------------------------------- XOR_MASK

pub proof fn lemma_xor_twice(x: u8, m: u8)
    ensures (x ^ m) ^ m == x,
{
    assert((x ^ m) ^ m == x) by (bit_vector);
}

/// The masks tried, in order.
pub open spec fn xor_mask_at(k: int) -> u8 {
    if k == 0 { 0xFF } else if k == 1 { 0xAA } else if k == 2 { 0x55 } else if k == 3 { 0x0F } else { 0xF0 }
}

/// From mask `k` on, the first mask under which the track becomes CONST
/// (inner tag 0) or LINEAR (inner tag 1), with the inner parameters.
pub open spec fn xor_find(t: Seq<u8>, k: int) -> Option<(u8, u8, Seq<u8>)>
    decreases 5 - k,
{
    if k < 0 || k >= 5 {
        None
    } else {
        let m = xor_mask_at(k);
        let u = crate::render::xor_all(t, m);
        if is_const(u) {
            Some((m, 0u8, seq![u[0]]))
        } else if spec_detect_linear(u) is Some {
            let (a, b) = spec_detect_linear(u)->0;
            Some((m, 1u8, crate::bytes::i16_bytes(a) + crate::bytes::i16_bytes(b)))
        } else {
            xor_find(t, k + 1)
        }
    }
}

/// XOR_MASK detection, for tracks of at least 8 bytes.
pub open spec fn spec_detect_xor(t: Seq<u8>) -> Option<(u8, u8, Seq<u8>)> {
    if t.len() < 8 { None } else { xor_find(t, 0) }
}

fn xor_mask_exec(k: usize) -> (m: u8)
    requires k < 5,
    ensures m == xor_mask_at(k as int),
{
    if k == 0 { 0xFF } else if k == 1 { 0xAA } else if k == 2 { 0x55 } else if k == 3 { 0x0F } else { 0xF0 }
}

pub fn detect_xor(track: &[u8]) -> (r: Option<(u8, u8, Vec<u8>)>)
    ensures
        match r {
            Some((m, tag, p)) => spec_detect_xor(track@) == Some((m, tag, p@)),
            None => spec_detect_xor(track@) is None,
        },
        r matches Some((m, tag, p)) ==> (tag == 0 && p@.len() == 1
            && crate::render::xor_all(render_const(p@[0], track.len() as int), m) == track@)
            || (tag == 1 && p@.len() == 4 && exists|a: i16, b: i16| p@ == crate::bytes::i16_bytes(a) + crate::bytes::i16_bytes(b)
                && #[trigger] crate::render::xor_all(render_linear(a as int, b as int, track.len() as int), m) == track@),
{
    if track.len() < 8 {
        return None;
    }
    let mut k: usize = 0;
    while k < 5
        invariant k <= 5, track.len() >= 8, xor_find(track@, 0) == xor_find(track@, k as int),
        decreases 5 - k,
    {
        let m = xor_mask_exec(k);
        let u = crate::render::xor_track(track, m);
        proof {
            assert forall|i: int| 0 <= i < track.len() implies #[trigger] (u@[i] ^ m) == track@[i] by {
                lemma_xor_twice(track@[i], m);
            }
        }
        match detect_const(u.as_slice()) {
            Some(v) => {
                proof { assert(crate::render::xor_all(render_const(v, track.len() as int), m) =~= track@); }
                return Some((m, 0u8, vec![v]));
            }
            None => {}
        }
        match detect_linear(u.as_slice()) {
            Some((a, b)) => {
                let mut p: Vec<u8> = Vec::new();
                crate::bytes::push_i16(&mut p, a);
                crate::bytes::push_i16(&mut p, b);
                proof {
                    assert(p@ =~= crate::bytes::i16_bytes(a) + crate::bytes::i16_bytes(b));
                    assert(crate::render::xor_all(render_linear(a as int, b as int, track.len() as int), m) =~= track@);
                }
                return Some((m, 1u8, p));
            }
            None => {}
        }
        k += 1;
    }
    None
}

// ---------------------------------------------------------------- LINEAR_WIDE

/// Word `i` of the track read as `w`-byte little-endian words (4 or 2).
pub open spec fn word(t: Seq<u8>, w: int, i: int) -> int {
    if w == 4 { crate::bytes::le32(t, 4 * i) } else { crate::bytes::le16(t, 2 * i) }
}

pub open spec fn word_step(t: Seq<u8>, w: int, k: int) -> int {
    word(t, w, k) - word(t, w, k - 1)
}

/// The words step evenly, by the step between the first two.
pub open spec fn words_linear(t: Seq<u8>, w: int) -> bool {
    forall|k: int| 1 <= k < (t.len() as int) / w ==> #[trigger] word_step(t, w, k) == word(t, w, 1) - word(t, w, 0)
}

/// LINEAR_WIDE detection: 32-bit words first, then 16-bit words, that form
/// an arithmetic sequence.
pub open spec fn spec_detect_linear_wide(t: Seq<u8>) -> Option<(u8, u16, i64, i64)> {
    let n = t.len() as int;
    if n >= 8 && n % 4 == 0 && words_linear(t, 4) {
        Some((4u8, (n / 4) as u16, word(t, 4, 0) as i64, (word(t, 4, 1) - word(t, 4, 0)) as i64))
    } else if n >= 4 && n % 2 == 0 && words_linear(t, 2) {
        Some((2u8, (n / 2) as u16, word(t, 2, 0) as i64, (word(t, 2, 1) - word(t, 2, 0)) as i64))
    } else {
        None
    }
}

proof fn lemma_words_values(t: Seq<u8>, w: int, i: int)
    requires w == 4 || w == 2, t.len() >= 2 * w, (t.len() as int) % w == 0, words_linear(t, w), 0 <= i < (t.len() as int) / w,
    ensures word(t, w, i) == word(t, w, 0) + i * (word(t, w, 1) - word(t, w, 0)),
    decreases i,
{
    if i > 0 {
        lemma_words_values(t, w, i - 1);
        assert(word_step(t, w, i) == word(t, w, 1) - word(t, w, 0));
        let d = word(t, w, 1) - word(t, w, 0);
        assert((i - 1) * d + d == i * d) by (nonlinear_arith);
        assert(word(t, w, i) == word(t, w, i - 1) + d);
        assert(word(t, w, i) == word(t, w, 0) + i * d);
    } else {
        let d = word(t, w, 1) - word(t, w, 0);
        assert(i * d == 0) by (nonlinear_arith) requires i == 0;
    }
}

/// Byte `b` of a little-endian number is its `b`-th digit.
pub proof fn lemma_byte_at_digits(d0: u8, d1: u8, d2: u8, d3: u8, b: nat)
    requires b < 4,
    ensures ({
        let v = d0 + 256 * d1 + 65536 * d2 + 16777216 * d3;
        crate::render::byte_at(v, b) == if b == 0 { d0 } else if b == 1 { d1 } else if b == 2 { d2 } else { d3 }
    }),
{
    let v = d0 + 256 * d1 + 65536 * d2 + 16777216 * d3;
    crate::render::lemma_pow256(b);
    if b == 0 {
        lemma_fundamental_div_mod_converse(v, 1, v, 0);
        lemma_fundamental_div_mod_converse(v, 256, d1 + 256 * d2 + 65536 * d3, d0 as int);
    } else if b == 1 {
        lemma_fundamental_div_mod_converse(v, 256, d1 + 256 * d2 + 65536 * d3, d0 as int);
        lemma_fundamental_div_mod_converse(d1 + 256 * d2 + 65536 * d3, 256, d2 + 256 * d3, d1 as int);
    } else if b == 2 {
        lemma_fundamental_div_mod_converse(v, 65536, d2 + 256 * d3, d0 + 256 * d1);
        lemma_fundamental_div_mod_converse(d2 + 256 * d3, 256, d3 as int, d2 as int);
    } else {
        lemma_fundamental_div_mod_converse(v, 16777216, d3 as int, d0 + 256 * d1 + 65536 * d2);
        lemma_fundamental_div_mod_converse(d3 as int, 256, 0, d3 as int);
    }
}

proof fn lemma_wide_bytes(t: Seq<u8>, w: int, k: int)
    requires w == 4 || w == 2, 0 <= k, (k / w + 1) * w <= t.len(),
    ensures crate::render::byte_at(word(t, w, k / w), (k % w) as nat) == t[k],
{
    let j = k / w;
    assert(k == w * j + k % w);
    assert(w * j == j * w);
    assert(0 <= w * j);
    assert(w * j + w <= t.len()) by (nonlinear_arith) requires (j + 1) * w <= t.len();
    if w == 4 {
        let s = 4 * j;
        lemma_byte_at_digits(t[s], t[s + 1], t[s + 2], t[s + 3], (k % 4) as nat);
    } else {
        let s = 2 * j;
        lemma_byte_at_digits(t[s], t[s + 1], 0, 0, (k % 2) as nat);
    }
}

fn words_linear_exec(track: &[u8], w: usize) -> (r: bool)
    requires w == 4 || w == 2, track.len() >= 2 * w, track.len() % w == 0,
    ensures r == words_linear(track@, w as int),
{
    let count = track.len() / w;
    let w0: i64 = if w == 4 { crate::bytes::read_u32(track, 0) as i64 } else { crate::bytes::read_u16(track, 0) as i64 };
    let w1: i64 = if w == 4 { crate::bytes::read_u32(track, 4) as i64 } else { crate::bytes::read_u16(track, 2) as i64 };
    let step = w1 - w0;
    let mut prev = w1;
    let mut k: usize = 2;
    while k < count
        invariant
            w == 4 || w == 2, count == track.len() / w, 2 <= count, 2 <= k <= count,
            w0 == word(track@, w as int, 0), w1 == word(track@, w as int, 1), step == w1 - w0,
            prev == word(track@, w as int, k - 1), 0 <= prev < 0x1_0000_0000,
            forall|j: int| 1 <= j < k ==> #[trigger] word_step(track@, w as int, j) == step,
        decreases count - k,
    {
        proof {
            assert(k * w + w <= track.len()) by (nonlinear_arith) requires k < count, count == track.len() / w, w > 0;
        }
        let cur: i64 = if w == 4 { crate::bytes::read_u32(track, 4 * k) as i64 } else { crate::bytes::read_u16(track, 2 * k) as i64 };
        if cur - prev != step {
            assert(word_step(track@, w as int, k as int) != step);
            return false;
        }
        prev = cur;
        k += 1;
    }
    proof { assert(word_step(track@, w as int, 1) == step); }
    true
}

pub fn detect_linear_wide(track: &[u8]) -> (r: Option<(u8, u16, i64, i64)>)
    requires track.len() <= 65535,
    ensures
        r == spec_detect_linear_wide(track@),
        r matches Some((width, count, start, step)) ==>
            crate::render::render_linear_wide(width, count as int, start as int, step as int, track.len() as int) == track@,
{
    let n = track.len();
    let mut w: usize = 4;
    if n >= 8 && n % 4 == 0 && words_linear_exec(track, 4) {
        w = 4;
    } else if n >= 4 && n % 2 == 0 && words_linear_exec(track, 2) {
        w = 2;
    } else {
        return None;
    }
    let w0: i64 = if w == 4 { crate::bytes::read_u32(track, 0) as i64 } else { crate::bytes::read_u16(track, 0) as i64 };
    let w1: i64 = if w == 4 { crate::bytes::read_u32(track, 4) as i64 } else { crate::bytes::read_u16(track, 2) as i64 };
    let count = n / w;
    proof {
        let wi = w as int;
        let len = if count * wi > n { n as int } else { count * wi };
        assert(count * wi == n);
        let s = Seq::new(len as nat, |k: int| crate::render::wide_byte(w0 as int, (w1 - w0) as int, wi, k));
        assert forall|k: int| 0 <= k < n implies #[trigger] s[k] == track@[k] by {
            let j = k / wi;
            assert(j < count) by (nonlinear_arith) requires k < n, n == count * wi, j == k / wi, wi > 0, k >= 0;
            assert((j + 1) * wi <= n) by (nonlinear_arith) requires j < count, n == count * wi, wi > 0;
            lemma_words_values(track@, wi, j);
            lemma_wide_bytes(track@, wi, k);
        }
        assert(s =~= track@);
    }
    Some((w as u8, count as u16, w0, w1 - w0))
}

// ---------------------------------------------------------------- SPARSE

/// Number of bytes equal to `v` among the first `k`.
pub open spec fn count_of(t: Seq<u8>, v: u8, k: int) -> int
    decreases k,
{
    if k <= 0 { 0 } else { count_of(t, v, k - 1) + if t[k - 1] == v { 1int } else { 0int } }
}

/// `v` is the most common byte, and the largest among equally common ones.
pub open spec fn is_fill(t: Seq<u8>, v: u8) -> bool {
    forall|w: u8| #![trigger count_of(t, w, t.len() as int)]
        count_of(t, w, t.len() as int) <= count_of(t, v, t.len() as int)
        && (w > v ==> count_of(t, w, t.len() as int) < count_of(t, v, t.len() as int))
}

/// The most common byte of the track (the largest such byte on a tie).
pub open spec fn fill_of(t: Seq<u8>) -> u8 {
    choose|v: u8| is_fill(t, v)
}

/// The `(index, byte)` of each byte among the first `k` that is not `fill`.
pub open spec fn sparse_entries(t: Seq<u8>, fill: u8, k: int) -> Seq<(u16, u8)>
    decreases k,
{
    if k <= 0 {
        Seq::empty()
    } else {
        let e = sparse_entries(t, fill, k - 1);
        if t[k - 1] != fill { e.push(((k - 1) as u16, t[k - 1])) } else { e }
    }
}

/// SPARSE detection: the most common byte fills at least three quarters of
/// the track and the exceptions are cheaper to store than the bytes.
pub open spec fn spec_detect_sparse(t: Seq<u8>) -> Option<(u8, Seq<(u16, u8)>)> {
    let n = t.len() as int;
    let f = fill_of(t);
    if n < 8 || count_of(t, f, n) * 4 < n * 3 {
        None
    } else if 3 + 3 * sparse_entries(t, f, n).len() < n {
        Some((f, sparse_entries(t, f, n)))
    } else {
        None
    }
}

proof fn lemma_fill_unique(t: Seq<u8>, a: u8)
    requires is_fill(t, a),
    ensures fill_of(t) == a,
{
    let b = fill_of(t);
    assert(is_fill(t, b));
    let n = t.len() as int;
    if a < b {
        assert(count_of(t, b, n) < count_of(t, a, n));
        assert(count_of(t, b, n) <= count_of(t, a, n));
        assert(count_of(t, a, n) <= count_of(t, b, n));
    } else if b < a {
        assert(count_of(t, a, n) < count_of(t, b, n));
        assert(count_of(t, b, n) <= count_of(t, a, n));
    }
}

proof fn lemma_sparse_apply(t: Seq<u8>, fill: u8, k: int)
    requires 0 <= k <= t.len(), t.len() <= 65535,
    ensures
        crate::render::sparse_apply(render_const(fill, t.len() as int), sparse_entries(t, fill, k))
            == Seq::new(t.len(), |i: int| if i < k { t[i] } else { fill }),
    decreases k,
{
    let base = render_const(fill, t.len() as int);
    if k == 0 {
        assert(base =~= Seq::new(t.len(), |i: int| if i < k { t[i] } else { fill }));
    } else {
        lemma_sparse_apply(t, fill, k - 1);
        let e = sparse_entries(t, fill, k - 1);
        if t[k - 1] != fill {
            let x = ((k - 1) as u16, t[k - 1]);
            assert(e.push(x).drop_last() =~= e);
            assert(e.push(x).last() == x);
        }
        assert(crate::render::sparse_apply(base, sparse_entries(t, fill, k))
            =~= Seq::new(t.len(), |i: int| if i < k { t[i] } else { fill }));
    }
}

pub fn detect_sparse(track: &[u8]) -> (r: Option<(u8, Vec<(u16, u8)>)>)
    requires track.len() <= 65535,
    ensures
        match r {
            Some((f, e)) => spec_detect_sparse(track@) == Some((f, e@)),
            None => spec_detect_sparse(track@) is None,
        },
        r matches Some((f, e)) ==> crate::render::render_sparse(f, e@, track.len() as int) == track@,
{
    let n = track.len();
    if n < 8 {
        return None;
    }
    let mut counts: Vec<usize> = Vec::new();
    let mut v: usize = 0;
    while v < 256
        invariant v <= 256, counts@.len() == v, forall|j: int| 0 <= j < v ==> counts@[j] == 0,
        decreases 256 - v,
    {
        counts.push(0);
        v += 1;
    }
    let mut i: usize = 0;
    while i < n
        invariant
            n == track.len(), n <= 65535, i <= n, counts@.len() == 256,
            forall|b: u8| #[trigger] counts@[b as int] == count_of(track@, b, i as int),
        decreases n - i,
    {
        let b = track[i] as usize;
        proof { assert(count_of(track@, track@[i as int], i as int) <= i) by { lemma_count_bound(track@, track@[i as int], i as int); } }
        let c = counts[b] + 1;
        counts.set(b, c);
        proof {
            assert forall|x: u8| #[trigger] counts@[x as int] == count_of(track@, x, i + 1) by {
                if x as int == b as int {} else {}
            }
        }
        i += 1;
    }
    let mut best: usize = 0;
    let mut v: usize = 1;
    while v < 256
        invariant
            1 <= v <= 256, best < v, counts@.len() == 256,
            forall|w: int| 0 <= w < v ==> counts@[w] <= counts@[best as int],
            forall|w: int| best < w < v ==> counts@[w] < counts@[best as int],
        decreases 256 - v,
    {
        if counts[v] >= counts[best] {
            best = v;
        }
        v += 1;
    }
    let fill = best as u8;
    proof {
        assert forall|w: u8| #![trigger count_of(track@, w, n as int)]
            count_of(track@, w, n as int) <= count_of(track@, fill, n as int)
            && (w > fill ==> count_of(track@, w, n as int) < count_of(track@, fill, n as int)) by {
            assert(counts@[w as int] == count_of(track@, w, n as int));
            assert(counts@[fill as int] == count_of(track@, fill, n as int));
        }
        lemma_fill_unique(track@, fill);
    }
    let fc = counts[best];
    if fc < (n * 3 + 3) / 4 {
        return None;
    }
    let mut entries: Vec<(u16, u8)> = Vec::new();
    let mut k: usize = 0;
    while k < n
        invariant
            n == track.len(), n <= 65535, k <= n, entries@ == sparse_entries(track@, fill, k as int),
            entries@.len() <= k,
        decreases n - k,
    {
        if track[k] != fill {
            entries.push((k as u16, track[k]));
        }
        k += 1;
    }
    if 3 + 3 * entries.len() < n {
        proof {
            lemma_sparse_apply(track@, fill, n as int);
            assert(Seq::new(track@.len(), |i: int| if i < n { track@[i] } else { fill }) =~= track@);
        }
        Some((fill, entries))
    } else {
        None
    }
}

proof fn lemma_count_bound(t: Seq<u8>, v: u8, k: int)
    requires 0 <= k,
    ensures 0 <= count_of(t, v, k) <= k,
    decreases k,
{
    if k > 0 { lemma_count_bound(t, v, k - 1); }
}

// ---------------------------------------------------------------- BIT_PACKED

/// `2^k`.
pub open spec fn two_pow(k: int) -> int
    decreases k,
{
    if k <= 0 { 1 } else { 2 * two_pow(k - 1) }
}

proof fn lemma_two_pow_pos(k: int)
    ensures two_pow(k) >= 1,
    decreases k,
{
    if k > 0 { lemma_two_pow_pos(k - 1); }
}

proof fn lemma_two_pow_small(k: int)
    requires 0 <= k <= 8,
    ensures
        k == 0 ==> two_pow(k) == 1, k == 1 ==> two_pow(k) == 2, k == 2 ==> two_pow(k) == 4,
        k == 3 ==> two_pow(k) == 8, k == 4 ==> two_pow(k) == 16, k == 5 ==> two_pow(k) == 32,
        k == 6 ==> two_pow(k) == 64, k == 7 ==> two_pow(k) == 128, k == 8 ==> two_pow(k) == 256,
{
    reveal_with_fuel(two_pow, 9);
}

/// The largest of the first `k` bytes (0 for none).
pub open spec fn max_of(t: Seq<u8>, k: int) -> u8
    decreases k,
{
    if k <= 0 { 0 } else {
        let m = max_of(t, k - 1);
        if t[k - 1] > m { t[k - 1] } else { m }
    }
}

proof fn lemma_max_of(t: Seq<u8>, k: int, i: int)
    requires 0 <= i < k <= t.len(),
    ensures t[i] <= max_of(t, k),
    decreases k,
{
    if i < k - 1 { lemma_max_of(t, k - 1, i); }
}

/// Number of bits that hold `m` (at least one).
pub open spec fn bits_for(m: u8) -> u8 {
    if m < 2 { 1 } else if m < 4 { 2 } else if m < 8 { 3 } else if m < 16 { 4 }
    else if m < 32 { 5 } else if m < 64 { 6 } else if m < 128 { 7 } else { 8 }
}

/// Bit `p` of the packed stream: the bits of each value, most significant
/// first, then zeros.
pub open spec fn stream_bit(t: Seq<u8>, bits: int, p: int) -> int {
    if 0 <= p < t.len() * bits { (t[p / bits] as int / two_pow(bits - 1 - p % bits)) % 2 } else { 0 }
}

/// Byte `j` of the packed stream after its first `r` bits.
pub open spec fn packed_acc(t: Seq<u8>, bits: int, j: int, r: int) -> int
    decreases r,
{
    if r <= 0 { 0 } else { packed_acc(t, bits, j, r - 1) * 2 + stream_bit(t, bits, 8 * j + r - 1) }
}

/// Number of packed bytes.
pub open spec fn packed_bytes_len(n: int, bits: int) -> int {
    (n * bits + 7) / 8
}

/// The packed stream as bytes.
pub open spec fn packed_of(t: Seq<u8>, bits: int) -> Seq<u8> {
    Seq::new(packed_bytes_len(t.len() as int, bits) as nat, |j: int| packed_acc(t, bits, j, 8) as u8)
}

/// BIT_PACKED detection: every value fits in 6 bits or fewer and the packed
/// form is shorter than the track.
pub open spec fn spec_detect_bit_packed(t: Seq<u8>) -> Option<(u8, Seq<u8>)> {
    let n = t.len() as int;
    let b = bits_for(max_of(t, n));
    if n < 8 || b >= 7 || 1 + packed_bytes_len(n, b as int) >= n { None } else { Some((b, packed_of(t, b as int))) }
}

proof fn lemma_packed_split(t: Seq<u8>, bits: int, j: int, r: int, k: int)
    requires 0 <= r <= k,
    ensures ({
        let low = packed_acc(t, bits, j, k) - packed_acc(t, bits, j, r) * two_pow(k - r);
        0 <= low < two_pow(k - r)
    }),
    decreases k - r,
{
    if k > r {
        lemma_packed_split(t, bits, j, r, k - 1);
        let a = packed_acc(t, bits, j, r);
        let p = two_pow(k - 1 - r);
        let low = packed_acc(t, bits, j, k - 1) - a * p;
        let bit = stream_bit(t, bits, 8 * j + k - 1);
        assert(0 <= bit <= 1);
        assert(two_pow(k - r) == 2 * p);
        assert(packed_acc(t, bits, j, k) - a * (2 * p) == 2 * low + bit) by (nonlinear_arith)
            requires packed_acc(t, bits, j, k) == packed_acc(t, bits, j, k - 1) * 2 + bit,
                low == packed_acc(t, bits, j, k - 1) - a * p;
    } else {
        assert(packed_acc(t, bits, j, k) - packed_acc(t, bits, j, r) * 1 == 0);
    }
}

/// Reading bit `p` of the packed bytes gives bit `p` of the stream.
proof fn lemma_packed_bit(t: Seq<u8>, bits: int, p: int)
    requires 1 <= bits <= 6, 0 <= p < 8 * packed_bytes_len(t.len() as int, bits),
    ensures crate::render::packed_bit(packed_of(t, bits), p) == stream_bit(t, bits, p),
{
    let j = p / 8;
    let r = p % 8;
    assert(8 * j + r == p);
    assert(0 <= j < packed_bytes_len(t.len() as int, bits));
    lemma_packed_split(t, bits, j, 0, 8);
    lemma_two_pow_small(8);
    lemma_two_pow_small(7 - r);
    let byte = packed_acc(t, bits, j, 8);
    assert(0 <= byte < 256);
    assert(packed_of(t, bits)[j] as int == byte);
    lemma_packed_split(t, bits, j, r + 1, 8);
    let d = two_pow(7 - r);
    assert(crate::render::bit_divisor(r) == d);
    let hi = packed_acc(t, bits, j, r + 1);
    let low = byte - hi * d;
    lemma_fundamental_div_mod_converse(byte, d, hi, low);
    let bit = stream_bit(t, bits, 8 * j + r);
    assert(0 <= bit <= 1);
    assert(hi == packed_acc(t, bits, j, r) * 2 + bit);
    lemma_fundamental_div_mod_converse(hi, 2, packed_acc(t, bits, j, r), bit);
}

/// After reading `b` bits of value `i`, the reader holds its top `b` bits.
proof fn lemma_packed_value(t: Seq<u8>, bits: int, i: int, b: int)
    requires
        1 <= bits <= 6, 0 <= i < t.len(), 0 <= b <= bits,
        forall|k: int| 0 <= k < t.len() ==> (#[trigger] t[k]) < two_pow(bits),
    ensures crate::render::packed_value(packed_of(t, bits), bits, i, b) == t[i] as int / two_pow(bits - b),
    decreases b,
{
    let x = t[i] as int;
    lemma_two_pow_pos(bits - b);
    if b == 0 {
        assert(x < two_pow(bits));
        vstd::arithmetic::div_mod::lemma_basic_div(x, two_pow(bits));
    } else {
        lemma_packed_value(t, bits, i, b - 1);
        let p = i * bits + b - 1;
        assert(i * bits + bits <= t.len() * bits) by (nonlinear_arith) requires i < t.len(), bits >= 1;
        assert(p < 8 * packed_bytes_len(t.len() as int, bits)) by {
            vstd::arithmetic::div_mod::lemma_fundamental_div_mod(t.len() * bits + 7, 8);
        }
        lemma_packed_bit(t, bits, p);
        lemma_fundamental_div_mod_converse(p, bits, i, b - 1);
        let k = bits - b;
        let y = x / two_pow(k);
        assert(two_pow(k + 1) == two_pow(k) * 2);
        lemma_two_pow_pos(k);
        vstd::arithmetic::div_mod::lemma_div_denominator(x, two_pow(k), 2);
        assert(x / two_pow(k + 1) == y / 2);
        vstd::arithmetic::div_mod::lemma_fundamental_div_mod(y, 2);
        assert(y <= x) by { vstd::arithmetic::div_mod::lemma_div_is_ordered_by_denominator(x, 1, two_pow(k)); }
        vstd::arithmetic::div_mod::lemma_small_mod(y as nat, 256);
    }
}

proof fn lemma_bits_for(m: u8)
    ensures 1 <= bits_for(m) <= 8, (m as int) < two_pow(bits_for(m) as int),
{
    lemma_two_pow_small(bits_for(m) as int);
}

fn two_pow_exec(k: usize) -> (r: u8)
    requires k < 8,
    ensures r as int == two_pow(k as int), r >= 1,
{
    proof { lemma_two_pow_small(k as int); }
    if k == 0 { 1 } else if k == 1 { 2 } else if k == 2 { 4 } else if k == 3 { 8 }
    else if k == 4 { 16 } else if k == 5 { 32 } else if k == 6 { 64 } else { 128 }
}

pub fn detect_bit_packed(track: &[u8]) -> (r: Option<(u8, Vec<u8>)>)
    requires track.len() <= 65535,
    ensures
        match r {
            Some((b, p)) => spec_detect_bit_packed(track@) == Some((b, p@)),
            None => spec_detect_bit_packed(track@) is None,
        },
        r matches Some((b, p)) ==> p@.len() == packed_bytes_len(track.len() as int, b as int)
            && crate::render::render_bit_packed(b, p@, track.len() as int) == track@,
{
    let n = track.len();
    if n < 8 {
        return None;
    }
    let mut m: u8 = 0;
    let mut i: usize = 0;
    while i < n
        invariant i <= n, n == track.len(), m == max_of(track@, i as int),
        decreases n - i,
    {
        if track[i] > m { m = track[i]; }
        i += 1;
    }
    let bits: u8 = if m < 2 { 1 } else if m < 4 { 2 } else if m < 8 { 3 } else if m < 16 { 4 }
        else if m < 32 { 5 } else if m < 64 { 6 } else if m < 128 { 7 } else { 8 };
    if bits >= 7 {
        return None;
    }
    proof { assert(n * bits <= 65535 * 6) by (nonlinear_arith) requires n <= 65535, bits <= 6; }
    let nb = n * bits as usize;
    let plen = (nb + 7) / 8;
    if 1 + plen >= n {
        return None;
    }
    let bw = bits as usize;
    let mut packed: Vec<u8> = Vec::new();
    let mut j: usize = 0;
    while j < plen
        invariant
            j <= plen, plen == packed_bytes_len(n as int, bits as int), nb == n * bits, n == track.len(),
            n <= 65535, 1 <= bits <= 6, bw == bits, nb <= 65535 * 6,
            packed@ =~= packed_of(track@, bits as int).subrange(0, j as int),
        decreases plen - j,
    {
        let mut acc: u16 = 0;
        let mut r: usize = 0;
        proof {
            assert(8 * j + 8 <= 8 * plen);
            assert(8 * plen <= nb + 7 + 7) by { vstd::arithmetic::div_mod::lemma_fundamental_div_mod(nb as int + 7, 8); }
        }
        while r < 8
            invariant
                r <= 8, j < plen, 8 * j + 8 <= nb + 14, nb == n * bits, nb <= 65535 * 6, n == track.len(), 1 <= bits <= 6, bw == bits,
                acc as int == packed_acc(track@, bits as int, j as int, r as int),
                (acc as int) < two_pow(r as int),
            decreases 8 - r,
        {
            let p = 8 * j + r;
            let bit: u16 = if p < nb {
                let q = p / bw;
                let rem = p % bw;
                proof {
                    assert(q < n) by (nonlinear_arith) requires p < n * bw, q == p / bw, bw >= 1, p >= 0;
                }
                let d = two_pow_exec(bw - 1 - rem);
                ((track[q] / d) % 2) as u16
            } else {
                0
            };
            proof { lemma_two_pow_small(r as int); lemma_two_pow_small(r as int + 1); }
            acc = acc * 2 + bit;
            r += 1;
        }
        proof { lemma_two_pow_small(8); }
        packed.push(acc as u8);
        j += 1;
    }
    proof {
        assert(packed@ =~= packed_of(track@, bits as int));
        lemma_bits_for(m);
        assert forall|k: int| 0 <= k < n implies (#[trigger] track@[k]) < two_pow(bits as int) by {
            lemma_max_of(track@, n as int, k);
        }
        assert forall|k: int| 0 <= k < n implies
            #[trigger] crate::render::render_bit_packed(bits, packed@, n as int)[k] == track@[k] by {
            lemma_packed_value(track@, bits as int, k, bits as int);
            vstd::arithmetic::div_mod::lemma_div_basics(track@[k] as int);
        }
        assert(crate::render::render_bit_packed(bits, packed@, n as int) =~= track@);
    }
    Some((bits, packed))
}

} // verus!
