//! Command-line settings: human-readable sizes, chunk sizes chosen from the
//! input length, output names, and record strides guessed from the data.
use vstd::prelude::*;
use vstd::utf8::*;
use vstd::string::StringSliceAdditionalSpecFns;

verus! {

broadcast use vstd::utf8::encode_utf8_valid_utf8;

/// Why a size string was refused.
#[derive(Debug, Clone, Copy, PartialEq, Eq, Structural)]
pub enum SizeError {
    /// nothing but whitespace
    Empty,
    /// not a decimal number with an optional `k`, `m` or `g` suffix
    Invalid,
    /// a number whose size in bytes does not fit a `usize`
    TooLarge,
}

/// ASCII whitespace: space, tab, line feed, vertical tab, form feed, carriage return.
pub open spec fn is_space(b: u8) -> bool {
    b == 0x20 || (0x09 <= b && b <= 0x0D)
}

/// The three-byte UTF-8 encodings of Unicode whitespace: U+1680,
/// U+2000 to U+200A, U+2028, U+2029, U+202F, U+205F and U+3000.
pub open spec fn is_space3(a: u8, b: u8, c: u8) -> bool {
    ||| a == 0xE1 && b == 0x9A && c == 0x80
    ||| a == 0xE2 && b == 0x80 && ((0x80 <= c && c <= 0x8A) || c == 0xA8 || c == 0xA9 || c == 0xAF)
    ||| a == 0xE2 && b == 0x81 && c == 0x9F
    ||| a == 0xE3 && b == 0x80 && c == 0x80
}

/// Length of the UTF-8 encoding of a Unicode whitespace character (the
/// characters `str::trim` removes) that `s` starts with, or 0 for none:
/// one byte for the ASCII ones, two for U+0085 and U+00A0, three for the
/// others.
pub open spec fn space_at_front(s: Seq<u8>) -> int {
    if s.len() >= 1 && is_space(s[0]) { 1 }
    else if s.len() >= 2 && s[0] == 0xC2 && (s[1] == 0x85 || s[1] == 0xA0) { 2 }
    else if s.len() >= 3 && is_space3(s[0], s[1], s[2]) { 3 }
    else { 0 }
}

/// Length of the UTF-8 encoding of a Unicode whitespace character that `s`
/// ends with, or 0 for none.
pub open spec fn space_at_back(s: Seq<u8>) -> int {
    let n = s.len() as int;
    if n >= 1 && is_space(s[n - 1]) { 1 }
    else if n >= 2 && s[n - 2] == 0xC2 && (s[n - 1] == 0x85 || s[n - 1] == 0xA0) { 2 }
    else if n >= 3 && is_space3(s[n - 3], s[n - 2], s[n - 1]) { 3 }
    else { 0 }
}

/// `s` without its leading whitespace.
pub open spec fn trim_front(s: Seq<u8>) -> Seq<u8>
    decreases s.len(),
{
    let k = space_at_front(s);
    if k > 0 { trim_front(s.subrange(k, s.len() as int)) } else { s }
}

/// `s` without its trailing whitespace.
pub open spec fn trim_back(s: Seq<u8>) -> Seq<u8>
    decreases s.len(),
{
    let k = space_at_back(s);
    if k > 0 { trim_back(s.subrange(0, s.len() - k)) } else { s }
}

/// `s` without leading and trailing whitespace.
pub open spec fn trimmed(s: Seq<u8>) -> Seq<u8> {
    trim_back(trim_front(s))
}

/// Every byte is an ASCII digit.
pub open spec fn all_digits(s: Seq<u8>) -> bool {
    forall|i: int| 0 <= i < s.len() ==> 0x30 <= #[trigger] s[i] <= 0x39
}

/// The number that the decimal digits `s` spell.
pub open spec fn digits_value(s: Seq<u8>) -> nat
    decreases s.len(),
{
    if s.len() == 0 { 0 } else { digits_value(s.drop_last()) * 10 + (s.last() - 0x30) as nat }
}

/// The `usize` that `s` spells: an optional `+` and at least one digit,
/// with a value that fits.
pub open spec fn spec_parse_usize(s: Seq<u8>) -> Option<nat> {
    let d = if s.len() > 0 && s[0] == 0x2B { s.drop_first() } else { s };
    if d.len() > 0 && all_digits(d) && digits_value(d) <= usize::MAX { Some(digits_value(d)) } else { None }
}

/// The multiplier a trailing byte stands for: 1024 for `k`, 1024² for `m`,
/// 1024³ for `g` (either case), else none.
pub open spec fn size_unit(b: u8) -> nat {
    if b == 0x6B || b == 0x4B { 1024 }
    else if b == 0x6D || b == 0x4D { 1024 * 1024 }
    else if b == 0x67 || b == 0x47 { 1024 * 1024 * 1024 }
    else { 1 }
}

/// What `parse_size` gives for the bytes `s`: the number times its unit,
/// or `TooLarge` where that does not fit a `usize`.
pub open spec fn spec_parse_size(s: Seq<u8>) -> Result<usize, SizeError> {
    let t = trimmed(s);
    if t.len() == 0 {
        Err(SizeError::Empty)
    } else {
        let unit = size_unit(t.last());
        let num = if unit == 1 { t } else { t.drop_last() };
        match spec_parse_usize(num) {
            Some(n) => if n * unit <= usize::MAX { Ok((n * unit) as usize) } else { Err(SizeError::TooLarge) },
            None => Err(SizeError::Invalid),
        }
    }
}

proof fn lemma_digits_prefix(s: Seq<u8>, k: int)
    requires 0 <= k <= s.len(),
    ensures digits_value(s.subrange(0, k)) <= digits_value(s),
    decreases s.len() - k,
{
    if k < s.len() {
        lemma_digits_prefix(s, k + 1);
        assert(s.subrange(0, k + 1).drop_last() =~= s.subrange(0, k));
    } else {
        assert(s.subrange(0, k) =~= s);
    }
}

/// Parse the digits `d[start..end]` as a `usize`; `None` for an empty run,
/// a byte that is no digit, or a value that does not fit.
fn parse_digits(d: &[u8], start: usize, end: usize) -> (r: Option<usize>)
    requires start <= end <= d.len(),
    ensures
        ({
            let s = d@.subrange(start as int, end as int);
            r == (if s.len() > 0 && all_digits(s) && digits_value(s) <= usize::MAX {
                Some(digits_value(s) as usize)
            } else {
                None::<usize>
            })
        }),
{
    let ghost s = d@.subrange(start as int, end as int);
    if start == end {
        return None;
    }
    let mut v: usize = 0;
    let mut i: usize = start;
    while i < end
        invariant
            start <= i <= end <= d.len(), s == d@.subrange(start as int, end as int),
            all_digits(s.subrange(0, i - start)),
            v == digits_value(s.subrange(0, i - start)),
        decreases end - i,
    {
        let b = d[i];
        if b < 0x30 || b > 0x39 {
            proof { assert(s[i - start] == b); }
            return None;
        }
        let digit = (b - 0x30) as usize;
        proof {
            assert(s.subrange(0, i + 1 - start).drop_last() =~= s.subrange(0, i - start));
            assert(s.subrange(0, i + 1 - start).last() == b);
        }
        if v > (usize::MAX - digit) / 10 {
            proof {
                assert(v * 10 + digit > usize::MAX) by (nonlinear_arith)
                    requires v > (usize::MAX - digit) / 10, digit <= 9;
                lemma_digits_prefix(s, i + 1 - start);
            }
            return None;
        }
        proof {
            assert(v * 10 + digit <= usize::MAX) by (nonlinear_arith)
                requires v <= (usize::MAX - digit) / 10, digit <= 9;
        }
        v = v * 10 + digit;
        i += 1;
    }
    proof { assert(s.subrange(0, i - start) =~= s); }
    Some(v)
}

/// Length of the whitespace encoding at the start of `b[lo..]`.
fn space_front(b: &[u8], lo: usize) -> (k: usize)
    requires lo <= b.len(),
    ensures k == space_at_front(b@.subrange(lo as int, b@.len() as int)), k <= b.len() - lo,
{
    let n = b.len() - lo;
    if n >= 1 && (b[lo] == 0x20 || (0x09 <= b[lo] && b[lo] <= 0x0D)) {
        1
    } else if n >= 2 && b[lo] == 0xC2 && (b[lo + 1] == 0x85 || b[lo + 1] == 0xA0) {
        2
    } else if n >= 3 && is_space3_exec(b[lo], b[lo + 1], b[lo + 2]) {
        3
    } else {
        0
    }
}

/// Length of the whitespace encoding at the end of `b[lo..hi]`.
fn space_back(b: &[u8], lo: usize, hi: usize) -> (k: usize)
    requires lo <= hi <= b.len(),
    ensures k == space_at_back(b@.subrange(lo as int, hi as int)), k <= hi - lo,
{
    let n = hi - lo;
    if n >= 1 && (b[hi - 1] == 0x20 || (0x09 <= b[hi - 1] && b[hi - 1] <= 0x0D)) {
        1
    } else if n >= 2 && b[hi - 2] == 0xC2 && (b[hi - 1] == 0x85 || b[hi - 1] == 0xA0) {
        2
    } else if n >= 3 && is_space3_exec(b[hi - 3], b[hi - 2], b[hi - 1]) {
        3
    } else {
        0
    }
}

fn is_space3_exec(a: u8, b: u8, c: u8) -> (r: bool)
    ensures r == is_space3(a, b, c),
{
    (a == 0xE1 && b == 0x9A && c == 0x80)
        || (a == 0xE2 && b == 0x80 && ((0x80 <= c && c <= 0x8A) || c == 0xA8 || c == 0xA9 || c == 0xAF))
        || (a == 0xE2 && b == 0x81 && c == 0x9F)
        || (a == 0xE3 && b == 0x80 && c == 0x80)
}

/// Parse a human-readable size: a decimal number with an optional `k`, `m`
/// or `g` suffix (powers of 1024), surrounded by optional whitespace (the
/// Unicode whitespace characters `str::trim` removes).
pub fn parse_size(s: &str) -> (r: Result<usize, SizeError>)
    ensures r == spec_parse_size(s.spec_bytes()),
{
    let b = s.as_bytes();
    let ghost sb = b@;
    let mut lo: usize = 0;
    proof { assert(sb.subrange(0, sb.len() as int) =~= sb); }
    loop
        invariant lo <= b.len(), trim_front(sb) == trim_front(sb.subrange(lo as int, sb.len() as int)), sb == b@,
        ensures lo <= b.len(), trim_front(sb) == sb.subrange(lo as int, sb.len() as int),
        decreases b.len() - lo,
    {
        let k = space_front(b, lo);
        if k == 0 {
            break;
        }
        proof {
            assert(sb.subrange(lo as int, sb.len() as int).subrange(k as int, sb.len() - lo) =~= sb.subrange(lo + k, sb.len() as int));
        }
        lo += k;
    }
    let mut hi: usize = b.len();
    loop
        invariant lo <= hi <= b.len(), sb == b@, trimmed(sb) == trim_back(sb.subrange(lo as int, hi as int)),
        ensures lo <= hi <= b.len(), trimmed(sb) == sb.subrange(lo as int, hi as int),
        decreases hi,
    {
        let k = space_back(b, lo, hi);
        if k == 0 {
            break;
        }
        proof {
            assert(sb.subrange(lo as int, hi as int).subrange(0, hi - lo - k) =~= sb.subrange(lo as int, hi - k));
        }
        hi -= k;
    }
    if lo == hi {
        return Err(SizeError::Empty);
    }
    let ghost t = sb.subrange(lo as int, hi as int);
    let last = b[hi - 1];
    proof { assert(t.last() == last); }
    let unit: usize = if last == 0x6B || last == 0x4B { 1024 }
        else if last == 0x6D || last == 0x4D { 1024 * 1024 }
        else if last == 0x67 || last == 0x47 { 1024 * 1024 * 1024 }
        else { 1 };
    let end = if unit == 1 { hi } else { hi - 1 };
    let ghost num = if unit == 1 { t } else { t.drop_last() };
    proof { assert(num =~= sb.subrange(lo as int, end as int)); }
    let mut start = lo;
    if start < end && b[start] == 0x2B {
        start += 1;
    }
    proof {
        if num.len() > 0 && num[0] == 0x2B {
            assert(num.drop_first() =~= sb.subrange(start as int, end as int));
        } else {
            assert(num =~= sb.subrange(start as int, end as int));
        }
    }
    match parse_digits(b, start, end) {
        None => Err(SizeError::Invalid),
        Some(n) => {
            match n.checked_mul(unit) {
                Some(v) => Ok(v),
                None => Err(SizeError::TooLarge),
            }
        }
    }
}

/// Smallest chunk tried: 4 KiB.
pub const MIN_CHUNK: usize = 4096;

/// The chunk size chosen for `data_len` bytes: the whole input up to
/// 32 KiB, else the smallest power of two from 4 KiB on that reaches a
/// 64th of the input, at most 1 MiB.
pub open spec fn spec_auto_chunk(data_len: nat, chunk: nat) -> nat
    decreases 0x20_0000 - chunk,
{
    if 0 < chunk && chunk < data_len / 64 && chunk < 0x10_0000 { spec_auto_chunk(data_len, chunk * 2) } else { chunk }
}

/// Chunk size for streaming mode, picked from the input length so that a
/// large input falls into about 64 chunks.
pub fn auto_chunk_size(data_len: usize) -> (r: usize)
    ensures r == (if data_len <= 32 * 1024 { data_len as nat } else { spec_auto_chunk(data_len as nat, MIN_CHUNK as nat) }),
{
    if data_len <= 32 * 1024 {
        return data_len;
    }
    let target = data_len / 64;
    let mut chunk: usize = MIN_CHUNK;
    while chunk < target && chunk < 1024 * 1024
        invariant
            target == data_len / 64, MIN_CHUNK <= chunk <= 0x20_0000,
            spec_auto_chunk(data_len as nat, chunk as nat) == spec_auto_chunk(data_len as nat, MIN_CHUNK as nat),
        decreases 0x20_0000 - chunk,
    {
        chunk = chunk * 2;
    }
    chunk
}

/// Why no output name could be derived.
#[derive(Debug, Clone, Copy, PartialEq, Eq, Structural)]
pub enum NameError {
    /// the name does not end in `.pltz`
    NoPltzSuffix,
}

/// The bytes of ".pltz".
pub open spec fn pltz_suffix() -> Seq<u8> {
    seq![0x2Eu8, 0x70u8, 0x6Cu8, 0x74u8, 0x7Au8]
}

/// Name of the decompressed file: `path` without its `.pltz` suffix.
pub fn output_path_decompress(path: &str) -> (r: Result<String, NameError>)
    ensures
        ({
            let b = path.spec_bytes();
            let ends = b.len() >= 5 && b.subrange(b.len() - 5, b.len() as int) == pltz_suffix();
            &&& ends <==> r is Ok
            &&& r matches Ok(name) ==> encode_utf8(name@) == b.subrange(0, b.len() - 5)
            &&& r matches Err(e) ==> e == NameError::NoPltzSuffix
        }),
{
    let b = path.as_bytes();
    let n = b.len();
    if n < 5 || !(b[n - 5] == 0x2E && b[n - 4] == 0x70 && b[n - 3] == 0x6C && b[n - 2] == 0x74 && b[n - 1] == 0x7A) {
        proof {
            if n >= 5 && b@.subrange(n - 5, n as int) == pltz_suffix() {
                assert(b@.subrange(n - 5, n as int)[0] == b@[n - 5]);
                assert(b@.subrange(n - 5, n as int)[4] == b@[n - 1]);
                assert(b@.subrange(n - 5, n as int)[1] == b@[n - 4]);
                assert(b@.subrange(n - 5, n as int)[2] == b@[n - 3]);
                assert(b@.subrange(n - 5, n as int)[3] == b@[n - 2]);
            }
        }
        return Err(NameError::NoPltzSuffix);
    }
    proof {
        assert(b@.subrange(n - 5, n as int) =~= pltz_suffix());
        vstd::utf8::is_char_boundary_iff_is_leading_byte(path.spec_bytes(), n - 5);
    }
    let (head, _) = path.split_at(n - 5);
    let name = head.to_owned();
    Ok(name)
}

} // verus!

verus! {

// ---------------------------------------------------------------- record strides

/// How many leading bytes are sampled: at most 4096.
pub open spec fn sample_len(n: int) -> int {
    if n < 4096 { n } else { 4096 }
}

/// The longest stride considered: a quarter of the input, at most 1024.
pub open spec fn max_stride(n: int) -> int {
    if n / 4 < 1024 { n / 4 } else { 1024 }
}

/// How many of the first `k` positions `i` have `d[i] == d[i + stride]`.
pub open spec fn matches_upto(d: Seq<u8>, stride: int, k: int) -> int
    decreases k,
{
    if k <= 0 { 0 } else { matches_upto(d, stride, k - 1) + (if d[k - 1] == d[k - 1 + stride] { 1int } else { 0int }) }
}

/// Positions compared for `stride`.
pub open spec fn comparisons(d: Seq<u8>, stride: int) -> int {
    sample_len(d.len() as int) - stride
}

/// Positions that repeat at distance `stride` within the sample.
pub open spec fn stride_matches(d: Seq<u8>, stride: int) -> int {
    matches_upto(d, stride, comparisons(d, stride))
}

/// A stride is a candidate when more than 40% of the sampled bytes repeat
/// at that distance.
pub open spec fn qualifies(d: Seq<u8>, stride: int) -> bool {
    2 <= stride <= max_stride(d.len() as int) && 5 * stride_matches(d, stride) > 2 * comparisons(d, stride)
}

/// Stride `a` ranks before stride `b`: a higher share of repeats, or the
/// same share and a shorter stride.
pub open spec fn ranks_before(d: Seq<u8>, a: int, b: int) -> bool {
    let (ma, ca, mb, cb) = (stride_matches(d, a), comparisons(d, a), stride_matches(d, b), comparisons(d, b));
    ma * cb > mb * ca || (ma * cb == mb * ca && a < b)
}

/// `t` is the best-ranked candidate strides, best first: at most eight,
/// each ranked before the next, and every candidate left out ranked after
/// all of them (with eight taken).
pub open spec fn is_top_strides(d: Seq<u8>, t: Seq<usize>) -> bool {
    &&& t.len() <= 8
    &&& forall|i: int| 0 <= i < t.len() ==> qualifies(d, #[trigger] t[i] as int)
    &&& forall|i: int, j: int| 0 <= i < j < t.len() ==> ranks_before(d, #[trigger] t[i] as int, #[trigger] t[j] as int)
    &&& forall|s: int| #[trigger] qualifies(d, s) && !t.contains(s as usize)
        ==> t.len() == 8 && ranks_before(d, t[7] as int, s)
}

/// Common record sizes, tried after the detected ones.
pub open spec fn common_size(i: int) -> usize {
    if i == 0 { 4 } else if i == 1 { 8 } else if i == 2 { 12 } else if i == 3 { 16 }
    else if i == 4 { 20 } else if i == 5 { 24 } else if i == 6 { 32 } else if i == 7 { 48 }
    else if i == 8 { 64 } else if i == 9 { 128 } else if i == 10 { 256 } else { 512 }
}

/// The common sizes `common_size(0..k)` below `max` that `t` lacks, in order.
pub open spec fn common_extras(t: Seq<usize>, max: int, k: int) -> Seq<usize>
    decreases k,
{
    if k <= 0 {
        Seq::empty()
    } else {
        let s = common_size(k - 1);
        let prev = common_extras(t, max, k - 1);
        if (s as int) < max && !t.contains(s) { prev.push(s) } else { prev }
    }
}

proof fn lemma_rank_trans(ma: int, ca: int, a: int, mb: int, cb: int, b: int, mc: int, cc: int, c: int)
    requires
        ca > 0, cb > 0, cc > 0,
        ma * cb > mb * ca || (ma * cb == mb * ca && a < b),
        mb * cc > mc * cb || (mb * cc == mc * cb && b < c),
    ensures ma * cc > mc * ca || (ma * cc == mc * ca && a < c),
{
    assert(ma * cb * cc >= mb * ca * cc) by (nonlinear_arith) requires ma * cb >= mb * ca, cc > 0;
    assert(mb * cc * ca >= mc * cb * ca) by (nonlinear_arith) requires mb * cc >= mc * cb, ca > 0;
    if ma * cb > mb * ca {
        assert(ma * cb * cc > mb * ca * cc) by (nonlinear_arith) requires ma * cb > mb * ca, cc > 0;
    }
    if mb * cc > mc * cb {
        assert(mb * cc * ca > mc * cb * ca) by (nonlinear_arith) requires mb * cc > mc * cb, ca > 0;
    }
    assert(mb * ca * cc == mb * cc * ca) by (nonlinear_arith);
    assert(mc * cb * ca == cb * (mc * ca)) by (nonlinear_arith);
    assert(ma * cb * cc == cb * (ma * cc)) by (nonlinear_arith);
    if ma * cc < mc * ca {
        assert(cb * (ma * cc) < cb * (mc * ca)) by (nonlinear_arith) requires ma * cc < mc * ca, cb > 0;
    }
    if ma * cc == mc * ca {
        assert(cb * (ma * cc) == cb * (mc * ca));
    }
}

proof fn lemma_rank_facts(d: Seq<u8>, a: int, b: int)
    requires 2 <= a <= max_stride(d.len() as int), 2 <= b <= max_stride(d.len() as int),
    ensures
        comparisons(d, a) > 0,
        a != b ==> ranks_before(d, a, b) || ranks_before(d, b, a),
        ranks_before(d, a, b) ==> !ranks_before(d, b, a) && a != b,
{
}

proof fn lemma_rank_trans_strides(d: Seq<u8>, a: int, b: int, c: int)
    requires
        2 <= a <= max_stride(d.len() as int), 2 <= b <= max_stride(d.len() as int), 2 <= c <= max_stride(d.len() as int),
        ranks_before(d, a, b), ranks_before(d, b, c),
    ensures ranks_before(d, a, c),
{
    lemma_rank_trans(stride_matches(d, a), comparisons(d, a), a, stride_matches(d, b), comparisons(d, b), b,
        stride_matches(d, c), comparisons(d, c), c);
}

/// A candidate stride with its repeat count and number of comparisons.
struct StrideScore {
    stride: usize,
    hits: u64,
    comps: u64,
}

/// Whether `x` ranks before `y`, by cross-multiplied shares.
fn ranks_first(x: &StrideScore, y: &StrideScore) -> (r: bool)
    requires x.hits <= x.comps <= 4096, y.hits <= y.comps <= 4096,
    ensures r == (x.hits * y.comps > y.hits * x.comps || (x.hits * y.comps == y.hits * x.comps && x.stride < y.stride)),
{
    proof {
        assert(x.hits * y.comps <= 4096 * 4096) by (nonlinear_arith) requires x.hits <= 4096, y.comps <= 4096;
        assert(y.hits * x.comps <= 4096 * 4096) by (nonlinear_arith) requires y.hits <= 4096, x.comps <= 4096;
    }
    let p = x.hits * y.comps;
    let q = y.hits * x.comps;
    p > q || (p == q && x.stride < y.stride)
}

proof fn lemma_matches_bound(d: Seq<u8>, stride: int, k: int)
    ensures 0 <= k ==> 0 <= matches_upto(d, stride, k) <= k,
    decreases k,
{
    if k > 0 { lemma_matches_bound(d, stride, k - 1); }
}

/// Count the sampled positions that repeat at distance `stride`.
fn count_matches(data: &[u8], stride: usize, comps: usize) -> (m: u64)
    requires comps + stride <= data.len(), comps <= 4096,
    ensures m == matches_upto(data@, stride as int, comps as int),
{
    let mut m: u64 = 0;
    let mut i: usize = 0;
    while i < comps
        invariant i <= comps, comps + stride <= data.len(), comps <= 4096,
            m == matches_upto(data@, stride as int, i as int), m <= i,
        decreases comps - i,
    {
        if data[i] == data[i + stride] {
            m += 1;
        }
        i += 1;
    }
    m
}

/// Guess likely record strides: the strides at which more than 40% of the
/// first 4096 bytes repeat, best first (at most eight), then the common
/// record sizes below the longest stride considered.
pub fn detect_strides(data: &[u8]) -> (r: Vec<usize>)
    ensures
        max_stride(data@.len() as int) < 2 ==> r@.len() == 0,
        max_stride(data@.len() as int) >= 2 ==> exists|k: int| 0 <= k <= r@.len() && #[trigger] is_top_strides(data@, r@.take(k))
            && r@.skip(k) == common_extras(r@.take(k), max_stride(data@.len() as int), 12),
{
    let n = data.len();
    let maxs: usize = if n / 4 < 1024 { n / 4 } else { 1024 };
    if maxs < 2 {
        return Vec::new();
    }
    let sample: usize = if n < 4096 { n } else { 4096 };
    let ghost d = data@;
    // every candidate, by increasing stride
    let mut cands: Vec<StrideScore> = Vec::new();
    let mut s: usize = 2;
    while s <= maxs
        invariant
            2 <= s <= maxs + 1, maxs == max_stride(d.len() as int), sample == sample_len(d.len() as int), d == data@,
            maxs <= 1024, maxs >= 2, 4 * maxs <= n, n == d.len(),
            forall|j: int| 0 <= j < cands@.len() ==> {
                let c = #[trigger] cands@[j];
                &&& 2 <= c.stride < s && qualifies(d, c.stride as int)
                &&& c.hits == stride_matches(d, c.stride as int) && c.comps == comparisons(d, c.stride as int)
                &&& c.hits <= c.comps <= 4096
            },
            forall|t: int| 2 <= t < s && #[trigger] qualifies(d, t) ==> exists|j: int| 0 <= j < cands@.len() && cands@[j].stride == t,
            forall|a: int, b: int| 0 <= a < b < cands@.len() ==> (#[trigger] cands@[a]).stride < (#[trigger] cands@[b]).stride,
        decreases maxs + 1 - s,
    {
        let ghost old_c = cands@;
        let comps = sample - s;
        let m = count_matches(data, s, comps);
        proof { lemma_matches_bound(d, s as int, comps as int); }
        if 5 * m > 2 * (comps as u64) {
            cands.push(StrideScore { stride: s, hits: m, comps: comps as u64 });
            proof { assert(cands@[cands@.len() - 1].stride == s); }
        }
        proof {
            assert forall|t: int| 2 <= t < s + 1 && #[trigger] qualifies(d, t)
                implies exists|j: int| 0 <= j < cands@.len() && cands@[j].stride == t by {
                if t == s as int {
                    assert(cands@[cands@.len() - 1].stride == s);
                } else {
                    let j0 = choose|j: int| 0 <= j < old_c.len() && old_c[j].stride == t;
                    assert(cands@[j0] == old_c[j0]);
                }
            }
        }
        s += 1;
    }
    // the best eight, best first
    let mut out: Vec<usize> = Vec::new();
    let mut last: usize = 0;
    let mut k: usize = 0;
    while k < 8
        invariant
            k <= 8, out@.len() == k, d == data@, maxs == max_stride(d.len() as int), maxs >= 2,
            forall|j: int| 0 <= j < cands@.len() ==> {
                let c = #[trigger] cands@[j];
                &&& 2 <= c.stride <= maxs && qualifies(d, c.stride as int)
                &&& c.hits == stride_matches(d, c.stride as int) && c.comps == comparisons(d, c.stride as int)
                &&& c.hits <= c.comps <= 4096
            },
            forall|t: int| #[trigger] qualifies(d, t) ==> exists|j: int| 0 <= j < cands@.len() && cands@[j].stride == t,
            forall|a: int, b: int| 0 <= a < b < cands@.len() ==> (#[trigger] cands@[a]).stride < (#[trigger] cands@[b]).stride,
            k > 0 ==> last < cands@.len() && out@[k - 1] == cands@[last as int].stride,
            forall|i: int| 0 <= i < out@.len() ==> qualifies(d, #[trigger] out@[i] as int),
            forall|i: int, j: int| 0 <= i < j < out@.len() ==> ranks_before(d, #[trigger] out@[i] as int, #[trigger] out@[j] as int),
            forall|t: int| #[trigger] qualifies(d, t) && !out@.contains(t as usize) ==> k == 0 || ranks_before(d, out@[k - 1] as int, t),
        ensures
            out@.len() <= 8, d == data@,
            forall|i: int| 0 <= i < out@.len() ==> qualifies(d, #[trigger] out@[i] as int),
            forall|i: int, j: int| 0 <= i < j < out@.len() ==> ranks_before(d, #[trigger] out@[i] as int, #[trigger] out@[j] as int),
            forall|t: int| #[trigger] qualifies(d, t) && !out@.contains(t as usize) ==> out@.len() == 8 && ranks_before(d, out@[7] as int, t),
        decreases 8 - k,
    {
        let mut best: usize = 0;
        let mut found = false;
        let mut j: usize = 0;
        while j < cands.len()
            invariant
                j <= cands@.len(), k <= 8, out@.len() == k, d == data@, maxs == max_stride(d.len() as int),
                forall|q: int| 0 <= q < cands@.len() ==> {
                    let c = #[trigger] cands@[q];
                    &&& 2 <= c.stride <= maxs && qualifies(d, c.stride as int)
                    &&& c.hits == stride_matches(d, c.stride as int) && c.comps == comparisons(d, c.stride as int)
                    &&& c.hits <= c.comps <= 4096
                },
                k > 0 ==> last < cands@.len() && out@[k - 1] == cands@[last as int].stride,
                forall|a: int, b: int| 0 <= a < b < cands@.len() ==> (#[trigger] cands@[a]).stride < (#[trigger] cands@[b]).stride,
                found ==> best < j && (k == 0 || ranks_before(d, out@[k - 1] as int, cands@[best as int].stride as int)),
                forall|q: int| 0 <= q < j && (k == 0 || ranks_before(d, out@[k - 1] as int, (#[trigger] cands@[q]).stride as int))
                    ==> found && (q == best || ranks_before(d, cands@[best as int].stride as int, cands@[q].stride as int)),
            decreases cands.len() - j,
        {
            let eligible = k == 0 || ranks_first(&cands[last], &cands[j]);
            if eligible {
                if !found || ranks_first(&cands[j], &cands[best]) {
                    proof {
                        if found {
                            assert forall|q: int| 0 <= q < j && (k == 0 || ranks_before(d, out@[k - 1] as int, (#[trigger] cands@[q]).stride as int))
                                implies (q == j || ranks_before(d, cands@[j as int].stride as int, cands@[q].stride as int)) by {
                                if q != best {
                                    lemma_rank_trans_strides(d, cands@[j as int].stride as int, cands@[best as int].stride as int, cands@[q].stride as int);
                                }
                            }
                        }
                    }
                    best = j;
                    found = true;
                } else {
                    proof {
                        lemma_rank_facts(d, cands@[j as int].stride as int, cands@[best as int].stride as int);
                        assert(cands@[best as int].stride < cands@[j as int].stride);
                    }
                }
            }
            j += 1;
        }
        if !found {
            proof {
                assert forall|t: int| #[trigger] qualifies(d, t) && !out@.contains(t as usize) implies false by {
                    let jq = choose|jq: int| 0 <= jq < cands@.len() && cands@[jq].stride == t;
                    assert(cands@[jq].stride == t);
                }
            }
            break;
        }
        let pick = cands[best].stride;
        let ghost before = out@;
        proof {
            if k > 0 {
                assert forall|i: int| 0 <= i < k implies ranks_before(d, #[trigger] out@[i] as int, pick as int) by {
                    if i < k - 1 {
                        lemma_rank_trans_strides(d, out@[i] as int, out@[k - 1] as int, pick as int);
                    }
                }
            }
        }
        out.push(pick);
        last = best;
        proof {
            assert forall|t: int| #[trigger] qualifies(d, t) && !out@.contains(t as usize)
                implies ranks_before(d, out@[k as int] as int, t) by {
                assert(out@.drop_last() =~= before);
                assert(!before.contains(t as usize)) by {
                    if before.contains(t as usize) {
                        let i = choose|i: int| 0 <= i < before.len() && before[i] == t as usize;
                        assert(out@[i] == t as usize);
                    }
                }
                let jq = choose|jq: int| 0 <= jq < cands@.len() && cands@[jq].stride == t;
                assert(out@[k as int] == pick);
                if jq == best as int {
                    assert(out@.contains(pick));
                }
            }
        }
        k += 1;
    }
    let ghost top = out@;
    let top_len = out.len();
    let mut i: usize = 0;
    proof { assert(top =~= top + common_extras(top, maxs as int, 0)); }
    while i < 12
        invariant
            i <= 12, top_len == top.len(), out@ == top + common_extras(top, maxs as int, i as int),
        decreases 12 - i,
    {
        let c = common_size_at(i);
        proof { assert(out@.take(top_len as int) =~= top); }
        if c < maxs && !prefix_contains(&out, top_len, c) {
            out.push(c);
        }
        proof {
            assert(out@ =~= top + common_extras(top, maxs as int, i + 1));
        }
        i += 1;
    }
    proof {
        assert(out@.take(top_len as int) =~= top);
        assert(out@.skip(top_len as int) =~= common_extras(top, maxs as int, 12));
        assert(is_top_strides(data@, out@.take(top_len as int)));
    }
    out
}

/// The common record size number `i`.
fn common_size_at(i: usize) -> (r: usize)
    requires i < 12,
    ensures r == common_size(i as int),
{
    if i == 0 { 4 } else if i == 1 { 8 } else if i == 2 { 12 } else if i == 3 { 16 }
    else if i == 4 { 20 } else if i == 5 { 24 } else if i == 6 { 32 } else if i == 7 { 48 }
    else if i == 8 { 64 } else if i == 9 { 128 } else if i == 10 { 256 } else { 512 }
}

/// Whether `v[..len]` holds `x`.
fn prefix_contains(v: &Vec<usize>, len: usize, x: usize) -> (r: bool)
    requires len <= v@.len(),
    ensures r == v@.take(len as int).contains(x),
{
    let mut i: usize = 0;
    while i < len
        invariant i <= len <= v@.len(), forall|j: int| 0 <= j < i ==> v@[j] != x,
        decreases len - i,
    {
        if v[i] == x {
            proof { assert(v@.take(len as int)[i as int] == x); }
            return true;
        }
        i += 1;
    }
    false
}

} // verus!
