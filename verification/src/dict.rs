//! Dictionary training with the COVER algorithm.
use vstd::prelude::*;
use std::collections::VecDeque;
use crate::hashtable::{get_batch_arch, le_u64_at};
use crate::{MAX_DISTANCE, MINMATCH};

verus! {

/// Length of the substrings (d-mers) whose frequencies are counted.
pub const D: usize = 8;

/// Number of slots of the frequency table.
pub const FREQ_SIZE: usize = 65536;

/// Mask that maps a d-mer hash to its slot.
pub const FREQ_MASK: usize = 65535;

/// The multiplier of the d-mer hash (the golden ratio times 2^64).
pub const DMER_MULTIPLIER: u64 = 0x9E37_79B9_7F4A_7C15;

/// All samples, one after the other.
pub open spec fn concat_all(samples: Seq<Seq<u8>>) -> Seq<u8>
    decreases samples.len(),
{
    if samples.len() == 0 {
        Seq::empty()
    } else {
        concat_all(samples.drop_last()) + samples.last()
    }
}

/// The byte sequences that `s` refers to.
pub open spec fn views(s: Seq<&[u8]>) -> Seq<Seq<u8>> {
    s.map_values(|x: &[u8]| x@)
}

/// Where sample `t` starts in the concatenation of all samples.
pub open spec fn sample_start(samples: Seq<Seq<u8>>, t: int) -> int {
    concat_all(samples.take(t)).len() as int
}

/// The hash of the eight bytes at `i`, read little-endian.
pub open spec fn dmer_hash(data: Seq<u8>, i: int) -> int {
    (le_u64_at(data, i) * DMER_MULTIPLIER) % 0x1_0000_0000_0000_0000
}

/// The frequency slot of every d-mer of `concat`.
pub open spec fn slots(concat: Seq<u8>) -> Seq<u32> {
    Seq::new((concat.len() - (D - 1)) as nat, |i: int| (dmer_hash(concat, i) % 65536) as u32)
}

/// How many of the d-mers at `a..b` fall in slot `h`.
pub open spec fn count_in(sl: Seq<u32>, a: int, b: int, h: int) -> int
    decreases b - a,
{
    if b <= a {
        0
    } else {
        count_in(sl, a, b - 1, h) + if sl[b - 1] == h { 1int } else { 0int }
    }
}

/// How many of the d-mers that lie wholly inside one of the first `s`
/// samples fall in slot `h`.
pub open spec fn count_samples(samples: Seq<Seq<u8>>, sl: Seq<u32>, s: int, h: int) -> int
    decreases s,
{
    if s <= 0 {
        0
    } else {
        let a = sample_start(samples, s - 1);
        let n = samples[s - 1].len();
        count_samples(samples, sl, s - 1, h) + if n >= D { count_in(sl, a, a + n - (D - 1), h) } else { 0 }
    }
}

/// The frequency of each slot: the number of d-mers within samples that fall in it.
pub open spec fn initial_freqs(samples: Seq<Seq<u8>>, sl: Seq<u32>) -> Seq<u32> {
    Seq::new(FREQ_SIZE as nat, |h: int| count_samples(samples, sl, samples.len() as int, h) as u32)
}

/// The summed frequencies of the slots of the first `i` d-mers.
pub open spec fn weight_prefix(freqs: Seq<u32>, sl: Seq<u32>, i: int) -> int
    decreases i,
{
    if i <= 0 {
        0
    } else {
        weight_prefix(freqs, sl, i - 1) + freqs[sl[i - 1] as int]
    }
}

/// The score of the segment whose `n` d-mers start at `pos`.
pub open spec fn segment_score(freqs: Seq<u32>, sl: Seq<u32>, pos: int, n: int) -> int {
    weight_prefix(freqs, sl, pos + n) - weight_prefix(freqs, sl, pos)
}

/// The best segment start among `0..p` with its score: the first unused
/// start of the highest positive score, or `(0, 0)` when there is none.
pub open spec fn best_start(freqs: Seq<u32>, sl: Seq<u32>, used: Seq<bool>, n: int, p: int) -> (int, int)
    decreases p,
{
    if p <= 0 {
        (0, 0)
    } else {
        let prev = best_start(freqs, sl, used, n, p - 1);
        let s = segment_score(freqs, sl, p - 1, n);
        if !used[p - 1] && s > prev.1 {
            (p - 1, s)
        } else {
            prev
        }
    }
}

/// `freqs` with the slots of the d-mers at `a..b` set to zero.
pub open spec fn zero_slots(freqs: Seq<u32>, sl: Seq<u32>, a: int, b: int) -> Seq<u32>
    decreases b - a,
{
    if b <= a {
        freqs
    } else {
        zero_slots(freqs, sl, a, b - 1).update(sl[b - 1] as int, 0u32)
    }
}

/// `used` with the positions `a..b` marked.
pub open spec fn mark_used(used: Seq<bool>, a: int, b: int) -> Seq<bool> {
    Seq::new(used.len(), |j: int| used[j] || (a <= j && j < b))
}

/// The starts of the segments that the greedy selection picks, in order:
/// while fewer than `dict_size` bytes are collected, the best unused start
/// of a `k`-byte segment among those that fit in `len` bytes, as long as its
/// score is positive; each pick zeroes the slots of its d-mers and marks its
/// bytes as used.
pub open spec fn cover_rounds(
    sl: Seq<u32>,
    freqs: Seq<u32>,
    used: Seq<bool>,
    collected: int,
    dict_size: int,
    k: int,
    len: int,
) -> Seq<int>
    decreases (if collected < dict_size { dict_size - collected } else { 0 }),
{
    if collected >= dict_size || k <= 0 {
        Seq::empty()
    } else {
        let best = best_start(freqs, sl, used, k - (D - 1), len - k + 1);
        if best.1 == 0 {
            Seq::empty()
        } else {
            seq![best.0] + cover_rounds(
                sl,
                zero_slots(freqs, sl, best.0, best.0 + k - (D - 1)),
                mark_used(used, best.0, best.0 + k),
                collected + k,
                dict_size,
                k,
                len,
            )
        }
    }
}

/// The `k` bytes of `concat` at `p`, cut at its end.
pub open spec fn segment_bytes(concat: Seq<u8>, p: int, k: int) -> Seq<u8> {
    concat.subrange(p, if p + k < concat.len() { p + k } else { concat.len() as int })
}

/// The segments at `segs`, the last one first.
pub open spec fn assemble(concat: Seq<u8>, segs: Seq<int>, k: int) -> Seq<u8>
    decreases segs.len(),
{
    if segs.len() == 0 {
        Seq::empty()
    } else {
        assemble(concat, segs.drop_first(), k) + segment_bytes(concat, segs[0], k)
    }
}

/// `s` cut to at most `n` bytes.
pub open spec fn truncated(s: Seq<u8>, n: int) -> Seq<u8> {
    if s.len() > n {
        s.take(n)
    } else {
        s
    }
}

/// The dictionary of at most `dict_size` bytes that the COVER selection
/// builds from `samples`: with fewer than `D` bytes in all, their first
/// `dict_size` bytes; with fewer than `dict_size / 4` bytes, all of them;
/// otherwise the selected `dict_size / 4`-byte segments, those picked last
/// first, cut to `dict_size` bytes.
pub open spec fn cover_dict(samples: Seq<Seq<u8>>, dict_size: int) -> Seq<u8> {
    let concat = concat_all(samples);
    let k = dict_size / 4;
    if concat.len() < D {
        truncated(concat, dict_size)
    } else if concat.len() < k {
        concat
    } else {
        let sl = slots(concat);
        let segs = cover_rounds(
            sl,
            initial_freqs(samples, sl),
            Seq::new(concat.len(), |j: int| false),
            0,
            dict_size,
            k,
            concat.len() as int,
        );
        truncated(assemble(concat, segs, k), dict_size)
    }
}

/// The selection needs segments of at least `D` bytes where it runs.
pub open spec fn cover_runs_sound(total: int, dict_size: int) -> bool {
    total >= D && total >= dict_size / 4 ==> dict_size / 4 >= D
}

proof fn lemma_concat_push(s: Seq<Seq<u8>>, t: int)
    requires
        0 <= t < s.len(),
    ensures
        concat_all(s.take(t + 1)) == concat_all(s.take(t)) + s[t],
{
    assert(s.take(t + 1).drop_last() =~= s.take(t));
}

proof fn lemma_concat_take_len(s: Seq<Seq<u8>>, t: int)
    requires
        0 <= t <= s.len(),
    ensures
        concat_all(s.take(t)).len() <= concat_all(s).len(),
    decreases s.len() - t,
{
    if t < s.len() {
        lemma_concat_push(s, t);
        lemma_concat_take_len(s, t + 1);
    } else {
        assert(s.take(t) =~= s);
    }
}

/// The concatenation of samples starts with the first sample.
pub proof fn lemma_concat_first(s: Seq<Seq<u8>>)
    requires
        s.len() > 0,
    ensures
        concat_all(s) == s[0] + concat_all(s.drop_first()),
    decreases s.len(),
{
    if s.len() == 1 {
        assert(s.drop_last() =~= Seq::<Seq<u8>>::empty());
        assert(s.drop_first() =~= Seq::<Seq<u8>>::empty());
        assert(concat_all(s) =~= s[0] + concat_all(s.drop_first()));
    } else {
        lemma_concat_first(s.drop_last());
        assert(s.drop_last().drop_first() =~= s.drop_first().drop_last());
        assert(s.drop_first().last() == s.last());
        assert(concat_all(s) =~= s[0] + concat_all(s.drop_first()));
    }
}

proof fn lemma_count_in_bound(sl: Seq<u32>, a: int, b: int, h: int)
    ensures
        0 <= count_in(sl, a, b, h),
        a <= b ==> count_in(sl, a, b, h) <= b - a,
    decreases b - a,
{
    if b > a {
        lemma_count_in_bound(sl, a, b - 1, h);
    }
}

proof fn lemma_count_samples_bound(samples: Seq<Seq<u8>>, sl: Seq<u32>, s: int, h: int)
    requires
        0 <= s <= samples.len(),
    ensures
        0 <= count_samples(samples, sl, s, h) <= sample_start(samples, s),
    decreases s,
{
    if s > 0 {
        lemma_count_samples_bound(samples, sl, s - 1, h);
        lemma_concat_push(samples, s - 1);
        let a = sample_start(samples, s - 1);
        let n = samples[s - 1].len();
        lemma_count_in_bound(sl, a, a + n - (D - 1), h);
    }
}

proof fn lemma_weight_prefix_mono(freqs: Seq<u32>, sl: Seq<u32>, a: int, b: int)
    requires
        0 <= a <= b,
    ensures
        weight_prefix(freqs, sl, a) <= weight_prefix(freqs, sl, b),
    decreases b - a,
{
    if a < b {
        lemma_weight_prefix_mono(freqs, sl, a, b - 1);
    }
}

proof fn lemma_weight_prefix_bound(freqs: Seq<u32>, sl: Seq<u32>, i: int, m: int)
    requires
        0 <= i <= sl.len(),
        forall|j: int| 0 <= j < sl.len() ==> sl[j] < freqs.len(),
        forall|h: int| 0 <= h < freqs.len() ==> #[trigger] freqs[h] <= m,
    ensures
        weight_prefix(freqs, sl, i) <= i * m,
    decreases i,
{
    if i > 0 {
        lemma_weight_prefix_bound(freqs, sl, i - 1, m);
        let g = sl[i - 1] as int;
        assert(0 <= g < freqs.len());
        assert(freqs[g] <= m);
        assert(weight_prefix(freqs, sl, i) == weight_prefix(freqs, sl, i - 1) + freqs[g]);
        assert((i - 1) * m + m == i * m) by (nonlinear_arith);
    } else {
        assert(i * m == 0) by (nonlinear_arith)
            requires
                i == 0,
        ;
    }
}

proof fn lemma_best_start_nonneg(freqs: Seq<u32>, sl: Seq<u32>, used: Seq<bool>, n: int, p: int)
    ensures
        best_start(freqs, sl, used, n, p).1 >= 0,
        p > 0 && best_start(freqs, sl, used, n, p).1 > 0 ==> 0 <= best_start(freqs, sl, used, n, p).0 < p,
    decreases p,
{
    if p > 0 {
        lemma_best_start_nonneg(freqs, sl, used, n, p - 1);
    }
}

proof fn lemma_assemble_split(concat: Seq<u8>, segs: Seq<int>, k: int, j: int)
    requires
        0 <= j <= segs.len(),
    ensures
        assemble(concat, segs, k).take(assemble(concat, segs.skip(j), k).len() as int) == assemble(concat, segs.skip(j), k),
        assemble(concat, segs.skip(j), k).len() <= assemble(concat, segs, k).len(),
    decreases j,
{
    if j > 0 {
        lemma_assemble_split(concat, segs, k, j - 1);
        let a = assemble(concat, segs.skip(j - 1), k);
        let b = assemble(concat, segs.skip(j), k);
        assert(segs.skip(j - 1).drop_first() =~= segs.skip(j));
        assert(a == b + segment_bytes(concat, segs[j - 1], k));
        let full = assemble(concat, segs, k);
        assert(full.take(b.len() as int) =~= b) by {
            assert forall|i: int| 0 <= i < b.len() implies full.take(b.len() as int)[i] == b[i] by {
                assert(full.take(a.len() as int)[i] == a[i]);
            }
        }
    } else {
        assert(segs.skip(0) =~= segs);
    }
}

/// The hash of the d-mer at the start of `data`; its low 16 bits are the
/// d-mer's slot.
pub fn hash_dmer(data: &[u8]) -> (h: usize)
    requires
        data@.len() >= 8,
    ensures
        h % 65536 == dmer_hash(data@, 0) % 65536,
{
    let v: u64 = get_batch_arch(data, 0);
    let w: u64 = v.wrapping_mul(DMER_MULTIPLIER);
    assert(w == (v * DMER_MULTIPLIER) % 0x1_0000_0000_0000_0000);
    assert((w as usize) % 0x10000usize == (w % 0x10000u64) as usize) by (bit_vector);
    w as usize
}

/// Appends the bytes of `s` to `v`.
fn append_bytes(v: &mut Vec<u8>, s: &[u8])
    ensures
        final(v)@ == old(v)@ + s@,
{
    let mut i: usize = 0;
    while i < s.len()
        invariant
            i <= s@.len(),
            v@ == old(v)@ + s@.take(i as int),
        decreases s@.len() - i,
    {
        v.push(s[i]);
        i = i + 1;
        assert(s@.take(i as int) =~= s@.take(i - 1).push(s@[i - 1]));
    }
    assert(s@.take(s@.len() as int) =~= s@);
}

/// Concatenates the samples and records where each starts, and where the
/// last one ends.
fn concat_samples(samples: &[&[u8]]) -> (r: (Vec<u8>, Vec<usize>))
    requires
        concat_all(views(samples@)).len() <= u32::MAX,
    ensures
        r.0@ == concat_all(views(samples@)),
        r.1@.len() == samples@.len() + 1,
        forall|j: int| 0 <= j <= samples@.len() ==> #[trigger] r.1@[j] == sample_start(views(samples@), j),
{
    let ghost sv = views(samples@);
    let mut concat: Vec<u8> = Vec::new();
    let mut offsets: Vec<usize> = Vec::new();
    let mut t: usize = 0;
    while t < samples.len()
        invariant
            t <= samples@.len(),
            sv == views(samples@),
            concat_all(sv).len() <= u32::MAX,
            concat@ == concat_all(sv.take(t as int)),
            offsets@.len() == t,
            forall|j: int| 0 <= j < t ==> #[trigger] offsets@[j] == sample_start(sv, j),
        decreases samples@.len() - t,
    {
        proof {
            lemma_concat_push(sv, t as int);
            lemma_concat_take_len(sv, t as int + 1);
        }
        offsets.push(concat.len());
        append_bytes(&mut concat, samples[t]);
        t = t + 1;
    }
    assert(sv.take(samples@.len() as int) =~= sv);
    offsets.push(concat.len());
    assert(offsets@[t as int] == sample_start(sv, t as int));
    (concat, offsets)
}

/// The frequency slot of every d-mer of `concat`.
fn dmer_slots(concat: &[u8]) -> (hashes: Vec<u32>)
    requires
        D <= concat@.len() <= u32::MAX,
    ensures
        hashes@ == slots(concat@),
{
    let num_dmers = concat.len() - D + 1;
    let ghost sl = slots(concat@);
    let mut hashes: Vec<u32> = vec![0u32; num_dmers];
    let mut i: usize = 0;
    while i < num_dmers
        invariant
            num_dmers == concat@.len() - (D - 1),
            concat@.len() <= u32::MAX,
            sl == slots(concat@),
            hashes@.len() == num_dmers,
            i <= num_dmers,
            forall|j: int| 0 <= j < i ==> hashes@[j] == sl[j],
        decreases num_dmers - i,
    {
        let sub = vstd::slice::slice_subrange(concat, i, i + D);
        let hv = hash_dmer(sub);
        assert(le_u64_at(sub@, 0) == le_u64_at(concat@, i as int));
        assert(hv & 0xFFFFusize == hv % 0x10000usize) by (bit_vector);
        hashes.set(i, (hv & FREQ_MASK) as u32);
        i = i + 1;
    }
    assert(hashes@ =~= sl);
    hashes
}

/// Counts, for every slot, the d-mers that lie wholly inside one sample.
fn count_freqs(samples: &[&[u8]], offsets: &[usize], hashes: &[u32], concat_len: usize) -> (freqs: Vec<u32>)
    requires
        concat_len == concat_all(views(samples@)).len(),
        D <= concat_len <= u32::MAX,
        hashes@ == slots(concat_all(views(samples@))),
        offsets@.len() == samples@.len() + 1,
        forall|j: int| 0 <= j <= samples@.len() ==> #[trigger] offsets@[j] == sample_start(views(samples@), j),
    ensures
        freqs@ == initial_freqs(views(samples@), hashes@),
        forall|h: int| 0 <= h < FREQ_SIZE ==> #[trigger] freqs@[h] <= concat_len,
{
    let ghost sv = views(samples@);
    let ghost sl = hashes@;
    let mut freqs: Vec<u32> = vec![0u32; FREQ_SIZE];
    let mut s: usize = 0;
    while s < samples.len()
        invariant
            s <= samples@.len(),
            sv == views(samples@),
            sv.len() == samples@.len(),
            sl == hashes@,
            sl == slots(concat_all(sv)),
            concat_len == concat_all(sv).len(),
            concat_len <= u32::MAX,
            offsets@.len() == samples@.len() + 1,
            forall|j: int| 0 <= j <= samples@.len() ==> #[trigger] offsets@[j] == sample_start(sv, j),
            freqs@.len() == FREQ_SIZE,
            forall|h: int| 0 <= h < FREQ_SIZE ==> #[trigger] freqs@[h] == count_samples(sv, sl, s as int, h),
        decreases samples@.len() - s,
    {
        let start = offsets[s];
        let end = offsets[s + 1];
        proof {
            lemma_concat_push(sv, s as int);
            lemma_concat_take_len(sv, s as int + 1);
            assert(start == sample_start(sv, s as int));
            assert(end == sample_start(sv, s as int + 1));
        }
        if end - start < D {
            s = s + 1;
            continue;
        }
        let mut i = start;
        while i < end - D + 1
            invariant
                start == sample_start(sv, s as int),
                end == sample_start(sv, s as int + 1),
                end - start == sv[s as int].len(),
                end <= concat_len,
                end - start >= D,
                start <= i <= end - D + 1,
                s < samples@.len(),
                sv.len() == samples@.len(),
                concat_len <= u32::MAX,
                sl == hashes@,
                sl == slots(concat_all(sv)),
                concat_len == concat_all(sv).len(),
                freqs@.len() == FREQ_SIZE,
                forall|h: int| 0 <= h < FREQ_SIZE ==> #[trigger] freqs@[h] == count_samples(sv, sl, s as int, h) + count_in(sl, start as int, i as int, h),
            decreases end - i,
        {
            let h = hashes[i] as usize;
            proof {
                lemma_count_samples_bound(sv, sl, s as int, h as int);
                lemma_count_in_bound(sl, start as int, i as int, h as int);
                assert(sl[i as int] < 65536);
            }
            let old_f = freqs[h];
            freqs.set(h, old_f + 1);
            i = i + 1;
        }
        s = s + 1;
    }
    assert(freqs@ =~= initial_freqs(sv, sl));
    assert forall|h: int| 0 <= h < FREQ_SIZE implies #[trigger] freqs@[h] <= concat_len by {
        lemma_count_samples_bound(sv, sl, samples@.len() as int, h);
        assert(sv.take(samples@.len() as int) =~= sv);
    }
    freqs
}

/// The summed frequencies of the slots of the first `i` d-mers, for every `i`.
fn prefix_weights(freqs: &[u32], hashes: &[u32], concat_len: usize) -> (prefix: Vec<u64>)
    requires
        concat_len <= u32::MAX,
        hashes@.len() < concat_len,
        freqs@.len() == FREQ_SIZE,
        forall|j: int| 0 <= j < hashes@.len() ==> #[trigger] hashes@[j] < FREQ_SIZE,
        forall|h: int| 0 <= h < FREQ_SIZE ==> #[trigger] freqs@[h] <= concat_len,
    ensures
        prefix@.len() == hashes@.len() + 1,
        forall|j: int| 0 <= j <= hashes@.len() ==> #[trigger] prefix@[j] == weight_prefix(freqs@, hashes@, j),
{
    let num_dmers = hashes.len();
    assert(num_dmers < u32::MAX);
    let mut prefix: Vec<u64> = vec![0u64; num_dmers + 1];
    prefix.set(0, 0);
    let mut i: usize = 0;
    while i < num_dmers
        invariant
            num_dmers == hashes@.len(),
            num_dmers < concat_len,
            concat_len <= u32::MAX,
            prefix@.len() == num_dmers + 1,
            i <= num_dmers,
            freqs@.len() == FREQ_SIZE,
            forall|j: int| 0 <= j < hashes@.len() ==> #[trigger] hashes@[j] < FREQ_SIZE,
            forall|h: int| 0 <= h < FREQ_SIZE ==> #[trigger] freqs@[h] <= concat_len,
            forall|j: int| 0 <= j <= i ==> #[trigger] prefix@[j] == weight_prefix(freqs@, hashes@, j),
        decreases num_dmers - i,
    {
        proof {
            lemma_weight_prefix_bound(freqs@, hashes@, i as int + 1, concat_len as int);
            assert((i + 1) * concat_len <= 0xFFFF_FFFF * 0xFFFF_FFFF) by (nonlinear_arith)
                requires
                    i + 1 <= concat_len,
                    concat_len <= 0xFFFF_FFFF,
            ;
        }
        let f = freqs[hashes[i] as usize] as u64;
        let next = prefix[i] + f;
        prefix.set(i + 1, next);
        i = i + 1;
    }
    prefix
}

/// The best unused start of a segment of `seg_dmers` d-mers among `0..limit`,
/// with its score.
fn best_segment(prefix: &[u64], used: &[bool], freqs: Ghost<Seq<u32>>, sl: Ghost<Seq<u32>>, seg_dmers: usize, limit: usize)
    -> (r: (usize, u64))
    requires
        limit + seg_dmers <= prefix@.len(),
        limit <= used@.len(),
        forall|j: int| 0 <= j < prefix@.len() ==> #[trigger] prefix@[j] == weight_prefix(freqs@, sl@, j),
    ensures
        (r.0 as int, r.1 as int) == best_start(freqs@, sl@, used@, seg_dmers as int, limit as int),
{
    let mut best_pos: usize = 0;
    let mut best_score: u64 = 0;
    let mut pos: usize = 0;
    while pos < limit
        invariant
            limit + seg_dmers <= prefix@.len(),
            limit <= used@.len(),
            forall|j: int| 0 <= j < prefix@.len() ==> #[trigger] prefix@[j] == weight_prefix(freqs@, sl@, j),
            pos <= limit,
            (best_pos as int, best_score as int) == best_start(freqs@, sl@, used@, seg_dmers as int, pos as int),
        decreases limit - pos,
    {
        if !used[pos] {
            proof {
                lemma_weight_prefix_mono(freqs@, sl@, pos as int, pos + seg_dmers);
                assert(prefix@.len() == prefix.len());
                assert(prefix@[pos + seg_dmers] == weight_prefix(freqs@, sl@, pos + seg_dmers));
                assert(prefix@[pos as int] == weight_prefix(freqs@, sl@, pos as int));
            }
            let score = prefix[pos + seg_dmers] - prefix[pos];
            if score > best_score {
                best_score = score;
                best_pos = pos;
            }
        }
        pos = pos + 1;
    }
    (best_pos, best_score)
}

/// Sets the slots of the d-mers at `from..to` to zero.
fn zero_range(freqs: &mut Vec<u32>, hashes: &[u32], from: usize, to: usize)
    requires
        from <= to <= hashes@.len(),
        old(freqs)@.len() == FREQ_SIZE,
        forall|j: int| 0 <= j < hashes@.len() ==> #[trigger] hashes@[j] < FREQ_SIZE,
    ensures
        final(freqs)@ == zero_slots(old(freqs)@, hashes@, from as int, to as int),
        final(freqs)@.len() == FREQ_SIZE,
{
    let mut i = from;
    while i < to
        invariant
            from <= i <= to,
            to <= hashes@.len(),
            freqs@.len() == FREQ_SIZE,
            old(freqs)@.len() == FREQ_SIZE,
            forall|j: int| 0 <= j < hashes@.len() ==> #[trigger] hashes@[j] < FREQ_SIZE,
            freqs@ == zero_slots(old(freqs)@, hashes@, from as int, i as int),
        decreases to - i,
    {
        proof {
            lemma_zero_slots_bound(old(freqs)@, hashes@, from as int, i as int, 0, u32::MAX as int);
        }
        freqs.set(hashes[i] as usize, 0);
        i = i + 1;
    }
}

/// Marks the positions `from..to` as used.
fn mark_range(used: &mut Vec<bool>, from: usize, to: usize)
    requires
        from <= to <= old(used)@.len(),
    ensures
        final(used)@ == mark_used(old(used)@, from as int, to as int),
{
    let mut j = from;
    while j < to
        invariant
            from <= j <= to,
            to <= used@.len(),
            used@.len() == old(used)@.len(),
            forall|m: int| 0 <= m < used@.len() ==> #[trigger] used@[m] == (old(used)@[m] || (from <= m && m < j)),
        decreases to - j,
    {
        used.set(j, true);
        j = j + 1;
    }
    assert(used@ =~= mark_used(old(used)@, from as int, to as int));
}

/// Runs the greedy selection of `k`-byte segments until `dict_size` bytes
/// are collected or no segment scores; returns their starts in order.
fn select_segments(hashes: &[u32], freqs: Vec<u32>, concat_len: usize, dict_size: usize, k: usize) -> (segs: Vec<usize>)
    requires
        D <= k <= concat_len <= u32::MAX,
        dict_size <= MAX_DISTANCE,
        k == dict_size / 4,
        hashes@.len() == concat_len - (D - 1),
        freqs@.len() == FREQ_SIZE,
        forall|j: int| 0 <= j < hashes@.len() ==> #[trigger] hashes@[j] < FREQ_SIZE,
        forall|h: int| 0 <= h < FREQ_SIZE ==> #[trigger] freqs@[h] <= concat_len,
    ensures
        segs@.map_values(|p: usize| p as int) == cover_rounds(hashes@, freqs@, Seq::new(concat_len as nat, |j: int| false), 0,
            dict_size as int, k as int, concat_len as int),
        forall|j: int| 0 <= j < segs@.len() ==> #[trigger] segs@[j] + k <= concat_len,
{
    let mut freqs = freqs;
    let seg_dmers = k - D + 1;
    let mut used: Vec<bool> = vec![false; concat_len];
    let mut segments: Vec<usize> = Vec::new();
    let mut collected: usize = 0;
    let ghost sl = hashes@;
    let ghost all_segs = cover_rounds(sl, freqs@, used@, 0, dict_size as int, k as int, concat_len as int);
    assert(used@ =~= Seq::new(concat_len as nat, |j: int| false));
    while collected < dict_size
        invariant
            D <= k <= concat_len <= u32::MAX,
            seg_dmers == k - (D - 1),
            dict_size <= MAX_DISTANCE,
            k == dict_size / 4,
            sl == hashes@,
            hashes@.len() == concat_len - (D - 1),
            forall|j: int| 0 <= j < hashes@.len() ==> #[trigger] hashes@[j] < FREQ_SIZE,
            freqs@.len() == FREQ_SIZE,
            forall|h: int| 0 <= h < FREQ_SIZE ==> #[trigger] freqs@[h] <= concat_len,
            used@.len() == concat_len,
            forall|j: int| 0 <= j < segments@.len() ==> #[trigger] segments@[j] + k <= concat_len,
            segments@.map_values(|p: usize| p as int) + cover_rounds(sl, freqs@, used@, collected as int, dict_size as int, k as int,
                concat_len as int) == all_segs,
        ensures
            segments@.map_values(|p: usize| p as int) == all_segs,
            forall|j: int| 0 <= j < segments@.len() ==> #[trigger] segments@[j] + k <= concat_len,
        decreases dict_size + k - collected,
    {
        let prefix = prefix_weights(freqs.as_slice(), hashes, concat_len);
        let limit = concat_len - k + 1;
        let (best_pos, best_score) = best_segment(prefix.as_slice(), used.as_slice(), Ghost(freqs@), Ghost(sl), seg_dmers, limit);
        proof {
            lemma_best_start_nonneg(freqs@, sl, used@, seg_dmers as int, limit as int);
        }
        if best_score == 0 {
            assert(cover_rounds(sl, freqs@, used@, collected as int, dict_size as int, k as int, concat_len as int)
                =~= Seq::<int>::empty());
            assert(segments@.map_values(|p: usize| p as int) + Seq::<int>::empty() =~= segments@.map_values(|p: usize| p as int));
            break;
        }
        let ghost old_segs = segments@;
        let ghost rest = cover_rounds(sl, freqs@, used@, collected as int, dict_size as int, k as int, concat_len as int);
        segments.push(best_pos);
        let ghost freqs_before = freqs@;
        zero_range(&mut freqs, hashes, best_pos, best_pos + seg_dmers);
        let ghost used_before = used@;
        mark_range(&mut used, best_pos, best_pos + k);
        collected = collected + k;
        proof {
            assert(segments@.map_values(|p: usize| p as int) =~= old_segs.map_values(|p: usize| p as int).push(best_pos as int));
            assert(rest == seq![best_pos as int] + cover_rounds(sl, freqs@, used@, collected as int, dict_size as int, k as int,
                concat_len as int));
            assert(old_segs.map_values(|p: usize| p as int).push(best_pos as int) + cover_rounds(sl, freqs@, used@, collected as int,
                dict_size as int, k as int, concat_len as int) =~= old_segs.map_values(|p: usize| p as int) + rest);
            assert forall|h: int| 0 <= h < FREQ_SIZE implies #[trigger] freqs@[h] <= concat_len by {
                lemma_zero_slots_bound(freqs_before, sl, best_pos as int, best_pos + seg_dmers, h, concat_len as int);
            }
        }
    }
    segments
}

/// Joins the segments at `segs`, the last one first, and cuts the result to
/// `dict_size` bytes.
fn assemble_dict(concat: &[u8], segs: &[usize], k: usize, dict_size: usize) -> (dict: Vec<u8>)
    requires
        concat@.len() <= u32::MAX,
        forall|j: int| 0 <= j < segs@.len() ==> #[trigger] segs@[j] + k <= concat@.len(),
    ensures
        dict@ == truncated(assemble(concat@, segs@.map_values(|p: usize| p as int), k as int), dict_size as int),
{
    let ghost sg = segs@.map_values(|p: usize| p as int);
    let mut dict: Vec<u8> = Vec::new();
    let mut m = segs.len();
    while m > 0
        invariant_except_break
            dict@.len() < dict_size || m == segs@.len(),
        invariant
            m <= segs@.len(),
            concat@.len() <= u32::MAX,
            sg == segs@.map_values(|p: usize| p as int),
            forall|j: int| 0 <= j < segs@.len() ==> #[trigger] segs@[j] + k <= concat@.len(),
            dict@ == assemble(concat@, sg.skip(m as int), k as int),
        ensures
            m == 0 || dict@.len() >= dict_size,
            dict@ == assemble(concat@, sg.skip(m as int), k as int),
        decreases m,
    {
        m = m - 1;
        let p = segs[m];
        let end = if p + k < concat.len() { p + k } else { concat.len() };
        let piece = vstd::slice::slice_subrange(concat, p, end);
        append_bytes(&mut dict, piece);
        proof {
            assert(sg.skip(m as int).drop_first() =~= sg.skip(m + 1));
        }
        if dict.len() >= dict_size {
            break;
        }
    }
    proof {
        lemma_assemble_split(concat@, sg, k as int, m as int);
        assert(sg.skip(0) =~= sg);
    }
    dict.truncate(dict_size);
    dict
}

/// Selects `dict_size / 4`-byte segments of the concatenated samples with
/// the COVER algorithm and assembles them into a dictionary of at most
/// `dict_size` bytes.
fn cover_select(samples: &[&[u8]], dict_size: usize) -> (dict: Vec<u8>)
    requires
        dict_size <= MAX_DISTANCE,
        concat_all(views(samples@)).len() <= u32::MAX,
        cover_runs_sound(concat_all(views(samples@)).len() as int, dict_size as int),
    ensures
        dict@ == cover_dict(views(samples@), dict_size as int),
        dict@.len() <= dict_size,
{
    let (concat, offsets) = concat_samples(samples);
    if concat.len() < D {
        let n = if dict_size < concat.len() { dict_size } else { concat.len() };
        let head = vstd::slice::slice_subrange(concat.as_slice(), 0, n);
        return vstd::slice::slice_to_vec(head);
    }
    let hashes = dmer_slots(concat.as_slice());
    let freqs = count_freqs(samples, offsets.as_slice(), hashes.as_slice(), concat.len());
    let k = dict_size / 4;
    if concat.len() < k {
        return concat;
    }
    let segments = select_segments(hashes.as_slice(), freqs, concat.len(), dict_size, k);
    assemble_dict(concat.as_slice(), segments.as_slice(), k, dict_size)
}

proof fn lemma_zero_slots_bound(freqs: Seq<u32>, sl: Seq<u32>, a: int, b: int, h: int, m: int)
    requires
        0 <= h < freqs.len(),
        0 <= a,
        b <= sl.len(),
        forall|j: int| 0 <= j < sl.len() ==> #[trigger] sl[j] < freqs.len(),
        forall|g: int| 0 <= g < freqs.len() ==> #[trigger] freqs[g] <= m,
        0 <= m,
    ensures
        zero_slots(freqs, sl, a, b).len() == freqs.len(),
        zero_slots(freqs, sl, a, b)[h] <= m,
    decreases b - a,
{
    if b > a {
        lemma_zero_slots_bound(freqs, sl, a, b - 1, h, m);
        assert(sl[b - 1] < freqs.len());
    }
}

/// Trains an LZ4 dictionary from sample messages using the COVER
/// algorithm.
///
/// Concatenates all samples, counts d-mer (8-byte substring)
/// frequencies, then greedily selects the k-byte segments with the
/// highest concentration of common patterns. Each selected segment's
/// d-mers are zeroed out so the next selection covers different
/// patterns. The result is contiguous real message content that gives
/// LZ4's match finder long matches.
///
/// Calling [`train`](Self::train) consumes the trainer, returning
/// the dictionary bytes.
pub struct DictTrainer {
    max_dict_size: usize,
    samples: VecDeque<Vec<u8>>,
    total_bytes: usize,
}

/// The samples `s` after evicting the oldest ones until `incoming` more
/// bytes fit in `budget`, or none are left.
pub open spec fn evict(s: Seq<Seq<u8>>, incoming: int, budget: int) -> Seq<Seq<u8>>
    decreases s.len(),
{
    if s.len() > 0 && concat_all(s).len() + incoming > budget {
        evict(s.drop_first(), incoming, budget)
    } else {
        s
    }
}

/// Summed frequencies only grow with more d-mers.
proof fn lemma_weight_mono(freqs: Seq<u32>, sl: Seq<u32>, a: int, b: int)
    requires
        a <= b,
    ensures
        weight_prefix(freqs, sl, a) <= weight_prefix(freqs, sl, b),
    decreases b - a,
{
    if a < b {
        lemma_weight_mono(freqs, sl, a, b - 1);
    }
}

/// A positive score comes from a d-mer whose slot has a positive frequency.
proof fn lemma_score_witness(freqs: Seq<u32>, sl: Seq<u32>, a: int, b: int)
    requires
        weight_prefix(freqs, sl, b) - weight_prefix(freqs, sl, a) > 0,
    ensures
        a < b,
        exists|t: int| a <= t < b && #[trigger] freqs[sl[t] as int] > 0,
    decreases b - a,
{
    if b <= a {
        lemma_weight_mono(freqs, sl, b, a);
    } else if weight_prefix(freqs, sl, b - 1) - weight_prefix(freqs, sl, a) > 0 {
        lemma_score_witness(freqs, sl, a, b - 1);
    } else {
        assert(freqs[sl[b - 1] as int] > 0);
    }
}

/// The best start is an unused start below `p` with its score, or scores 0.
proof fn lemma_best_start(freqs: Seq<u32>, sl: Seq<u32>, used: Seq<bool>, n: int, p: int)
    ensures
        best_start(freqs, sl, used, n, p).1 >= 0,
        best_start(freqs, sl, used, n, p).1 > 0 ==> {
            let b = best_start(freqs, sl, used, n, p);
            &&& 0 <= b.0 < p
            &&& b.1 == segment_score(freqs, sl, b.0, n)
        },
    decreases p,
{
    if p > 0 {
        lemma_best_start(freqs, sl, used, n, p - 1);
    }
}

/// Zeroing the slots of the d-mers at `a..b` zeroes each of them and leaves
/// every other slot as it was or zero.
proof fn lemma_zero_slots(freqs: Seq<u32>, sl: Seq<u32>, a: int, b: int)
    requires
        forall|t: int| a <= t < b ==> 0 <= #[trigger] sl[t] < freqs.len(),
    ensures
        zero_slots(freqs, sl, a, b).len() == freqs.len(),
        forall|t: int| a <= t < b ==> zero_slots(freqs, sl, a, b)[#[trigger] sl[t] as int] == 0,
        forall|x: int| 0 <= x < freqs.len() ==> #[trigger] zero_slots(freqs, sl, a, b)[x] == 0 || zero_slots(freqs, sl, a, b)[x]
            == freqs[x],
    decreases b - a,
{
    if a < b {
        lemma_zero_slots(freqs, sl, a, b - 1);
    }
}

/// The rounds of the selection from frequencies that are zero on the slots
/// `z`: every pick has a d-mer whose slot lies outside `z` and outside the
/// slots of the d-mers of every earlier pick.
proof fn lemma_rounds_new_patterns(
    sl: Seq<u32>,
    freqs: Seq<u32>,
    used: Seq<bool>,
    collected: int,
    dict_size: int,
    k: int,
    len: int,
    z: Set<int>,
)
    requires
        freqs.len() == FREQ_SIZE,
        forall|t: int| 0 <= t < sl.len() ==> #[trigger] sl[t] < FREQ_SIZE,
        len == sl.len() + D - 1,
        forall|x: int| #[trigger] z.contains(x) ==> 0 <= x < FREQ_SIZE && freqs[x] == 0,
    ensures
        ({
            let segs = cover_rounds(sl, freqs, used, collected, dict_size, k, len);
            let n = k - (D - 1);
            forall|j: int| 0 <= j < segs.len() ==> {
                &&& 0 <= segs[j]
                &&& segs[j] + n <= sl.len()
                &&& exists|t: int| {
                    &&& segs[j] <= t < segs[j] + n
                    &&& !z.contains(#[trigger] sl[t] as int)
                    &&& forall|i: int, u: int| #![trigger segs[i], sl[u]] 0 <= i < j && segs[i] <= u < segs[i] + n ==> sl[u] != sl[t]
                }
            }
        }),
    decreases (if collected < dict_size { dict_size - collected } else { 0 }),
{
    let n = k - (D - 1);
    if collected >= dict_size || k <= 0 {
        return;
    }
    let p = len - k + 1;
    let best = best_start(freqs, sl, used, n, p);
    if best.1 == 0 {
        return;
    }
    lemma_best_start(freqs, sl, used, n, p);
    let b0 = best.0;
    lemma_score_witness(freqs, sl, b0, b0 + n);
    assert(0 <= b0 && b0 + n <= sl.len());
    let t0 = choose|t: int| b0 <= t < b0 + n && #[trigger] freqs[sl[t] as int] > 0;
    assert(!z.contains(sl[t0] as int));
    let f2 = zero_slots(freqs, sl, b0, b0 + n);
    lemma_zero_slots(freqs, sl, b0, b0 + n);
    let z2 = z.union(Set::new(|x: int| exists|u: int| b0 <= u < b0 + n && #[trigger] sl[u] as int == x));
    assert forall|x: int| #[trigger] z2.contains(x) implies 0 <= x < FREQ_SIZE && f2[x] == 0 by {
        if z.contains(x) {
            assert(0 <= x < FREQ_SIZE);
            assert(f2[x] == 0 || f2[x] == freqs[x]);
        } else {
            let u = choose|u: int| b0 <= u < b0 + n && #[trigger] sl[u] as int == x;
            assert(0 <= u < sl.len());
            assert(sl[u] < FREQ_SIZE);
            assert(f2[sl[u] as int] == 0);
        }
    }
    let used2 = mark_used(used, b0, b0 + k);
    lemma_rounds_new_patterns(sl, f2, used2, collected + k, dict_size, k, len, z2);
    let rest = cover_rounds(sl, f2, used2, collected + k, dict_size, k, len);
    let segs = cover_rounds(sl, freqs, used, collected, dict_size, k, len);
    assert(segs == seq![b0] + rest);
    assert forall|j: int| 0 <= j < segs.len() implies {
        &&& 0 <= segs[j]
        &&& segs[j] + n <= sl.len()
        &&& exists|t: int| {
            &&& segs[j] <= t < segs[j] + n
            &&& !z.contains(#[trigger] sl[t] as int)
            &&& forall|i: int, u: int| #![trigger segs[i], sl[u]] 0 <= i < j && segs[i] <= u < segs[i] + n ==> sl[u] != sl[t]
        }
    } by {
        if j == 0 {
            assert(segs[0] == b0);
            assert(segs[0] <= t0 < segs[0] + n && !z.contains(sl[t0] as int));
        } else {
            assert(segs[j] == rest[j - 1]);
            let t = choose|t: int| {
                &&& rest[j - 1] <= t < rest[j - 1] + n
                &&& !z2.contains(#[trigger] sl[t] as int)
                &&& forall|i: int, u: int| #![trigger rest[i], sl[u]] 0 <= i < j - 1 && rest[i] <= u < rest[i] + n ==> sl[u] != sl[t]
            };
            assert forall|i: int, u: int| #![trigger segs[i], sl[u]] 0 <= i < j && segs[i] <= u < segs[i] + n implies sl[u] != sl[t] by {
                if i == 0 {
                    assert(segs[0] == b0);
                    if sl[u] == sl[t] {
                        assert(z2.contains(sl[u] as int));
                    }
                } else {
                    assert(segs[i] == rest[i - 1]);
                }
            }
            assert(!z.contains(sl[t] as int));
        }
    }
}

/// Every segment that the COVER selection picks brings a d-mer pattern that
/// no segment picked before it has: it has a d-mer whose slot none of the
/// d-mers of the earlier picks fall in. (The slots of picked d-mers are
/// zeroed, so a segment made only of patterns already covered scores
/// nothing and is not picked.)
pub proof fn law_cover_picks_new_patterns(samples: Seq<Seq<u8>>, dict_size: int)
    ensures
        ({
            let concat = concat_all(samples);
            let sl = slots(concat);
            let k = dict_size / 4;
            let n = k - (D - 1);
            let segs = cover_rounds(sl, initial_freqs(samples, sl), Seq::new(concat.len(), |j: int| false), 0, dict_size, k,
                concat.len() as int);
            concat.len() >= D ==> forall|j: int| 0 <= j < segs.len() ==> {
                &&& 0 <= segs[j]
                &&& segs[j] + n <= sl.len()
                &&& exists|t: int| #![trigger sl[t]] {
                    &&& segs[j] <= t < segs[j] + n
                    &&& forall|i: int, u: int| #![trigger segs[i], sl[u]] 0 <= i < j && segs[i] <= u < segs[i] + n ==> sl[u] != sl[t]
                }
            }
        }),
{
    let concat = concat_all(samples);
    if concat.len() >= D {
        let sl = slots(concat);
        let k = dict_size / 4;
        let n = k - (D - 1);
        assert forall|t: int| 0 <= t < sl.len() implies #[trigger] sl[t] < FREQ_SIZE by {
            assert(sl[t] == (dmer_hash(concat, t) % 65536) as u32);
        }
        let z = Set::<int>::empty();
        let f0 = initial_freqs(samples, sl);
        let u0 = Seq::new(concat.len(), |j: int| false);
        lemma_rounds_new_patterns(sl, f0, u0, 0, dict_size, k, concat.len() as int, z);
        let segs = cover_rounds(sl, f0, u0, 0, dict_size, k, concat.len() as int);
        assert forall|j: int| #![trigger segs[j]] 0 <= j < segs.len() implies exists|t: int| #![trigger sl[t]] {
            &&& segs[j] <= t < segs[j] + n
            &&& forall|i: int, u: int| #![trigger segs[i], sl[u]] 0 <= i < j && segs[i] <= u < segs[i] + n ==> sl[u] != sl[t]
        } by {
            let t = choose|t: int| {
                &&& segs[j] <= t < segs[j] + n
                &&& !z.contains(#[trigger] sl[t] as int)
                &&& forall|i: int, u: int| #![trigger segs[i], sl[u]] 0 <= i < j && segs[i] <= u < segs[i] + n ==> sl[u] != sl[t]
            };
            assert(segs[j] <= t < segs[j] + n);
        }
    }
}

/// Eviction drops the oldest samples first, and no more of them than
/// needed: what stays is the newest samples, the longest run of them that
/// leaves room for `incoming` more bytes within `budget` (none, when even
/// the newest alone leave no room).
pub proof fn law_evict_drops_oldest(s: Seq<Seq<u8>>, incoming: int, budget: int)
    ensures
        exists|j: int| {
            &&& 0 <= j <= s.len()
            &&& evict(s, incoming, budget) == #[trigger] s.skip(j)
            &&& (j == s.len() || concat_all(s.skip(j)).len() + incoming <= budget)
            &&& forall|i: int| 0 <= i < j ==> concat_all(#[trigger] s.skip(i)).len() + incoming > budget
        },
    decreases s.len(),
{
    if s.len() > 0 && concat_all(s).len() + incoming > budget {
        let t = s.drop_first();
        law_evict_drops_oldest(t, incoming, budget);
        let j0 = choose|j: int| {
            &&& 0 <= j <= t.len()
            &&& evict(t, incoming, budget) == #[trigger] t.skip(j)
            &&& (j == t.len() || concat_all(t.skip(j)).len() + incoming <= budget)
            &&& forall|i: int| 0 <= i < j ==> concat_all(#[trigger] t.skip(i)).len() + incoming > budget
        };
        assert(t.skip(j0) =~= s.skip(j0 + 1));
        assert forall|i: int| 0 <= i < j0 + 1 implies concat_all(#[trigger] s.skip(i)).len() + incoming > budget by {
            if i == 0 {
                assert(s.skip(0) =~= s);
            } else {
                assert(t.skip(i - 1) =~= s.skip(i));
                assert(concat_all(t.skip(i - 1)).len() + incoming > budget);
            }
        }
    } else {
        assert(s.skip(0) =~= s);
    }
}

impl DictTrainer {
    /// The largest dictionary this trainer builds.
    pub closed spec fn max_size(&self) -> nat {
        self.max_dict_size as nat
    }

    /// The samples kept, oldest first.
    pub closed spec fn samples(&self) -> Seq<Seq<u8>> {
        self.samples@.map_values(|v: Vec<u8>| v@)
    }

    /// The kept samples fit the budget of eight dictionaries, each of them
    /// is between `MINMATCH` and the dictionary size long, and the byte count
    /// is theirs.
    pub closed spec fn wf(&self) -> bool {
        &&& self.max_dict_size <= MAX_DISTANCE
        &&& self.total_bytes == concat_all(self.samples()).len()
        &&& self.total_bytes <= 8 * self.max_dict_size
        &&& forall|j: int| 0 <= j < self.samples().len() ==> MINMATCH <= #[trigger] self.samples()[j].len() <= self.max_dict_size
    }

    /// The budget: a well-formed trainer keeps at most eight dictionaries'
    /// worth of sample bytes, and each sample it keeps fits in a dictionary.
    pub proof fn lemma_budget(&self)
        requires
            self.wf(),
        ensures
            concat_all(self.samples()).len() <= 8 * self.max_size(),
            forall|j: int| 0 <= j < self.samples().len() ==> MINMATCH <= #[trigger] self.samples()[j].len() <= self.max_size(),
    {
    }

    /// Create a trainer targeting `max_dict_size` bytes of output.
    ///
    /// Typical values: 2048 for small messages, 4096 for larger ones.
    /// The dict is capped at 65535 bytes (LZ4 max match distance).
    pub fn new(max_dict_size: usize) -> (t: Self)
        ensures
            t.wf(),
            t.max_size() == if max_dict_size < MAX_DISTANCE { max_dict_size } else { MAX_DISTANCE },
            t.samples() == Seq::<Seq<u8>>::empty(),
    {
        let max_dict_size = if max_dict_size < MAX_DISTANCE { max_dict_size } else { MAX_DISTANCE };
        let t = DictTrainer { max_dict_size, samples: VecDeque::new(), total_bytes: 0 };
        assert(t.samples() =~= Seq::<Seq<u8>>::empty());
        t
    }

    /// Add a training sample.
    ///
    /// Samples shorter than 4 bytes or longer than `max_dict_size` are
    /// silently skipped. Old samples are evicted when the memory budget
    /// (8x `max_dict_size`) is exceeded, so calling indefinitely is safe.
    pub fn add_sample(&mut self, data: &[u8])
        requires
            old(self).wf(),
        ensures
            final(self).wf(),
            final(self).max_size() == old(self).max_size(),
            final(self).samples() == if data@.len() < MINMATCH || data@.len() > old(self).max_size() {
                old(self).samples()
            } else {
                evict(old(self).samples(), data@.len() as int, 8 * old(self).max_size() as int).push(data@)
            },
            MINMATCH <= data@.len() <= old(self).max_size() ==> exists|j: int|
                0 <= j <= old(self).samples().len() && final(self).samples() == #[trigger] old(self).samples().skip(j).push(data@),
    {
        proof {
            law_evict_drops_oldest(self.samples(), data@.len() as int, 8 * self.max_dict_size as int);
        }
        if data.len() < MINMATCH || data.len() > self.max_dict_size {
            return;
        }
        let budget = self.max_dict_size * 8;
        let ghost target = evict(self.samples(), data@.len() as int, budget as int);
        while self.total_bytes + data.len() > budget && self.samples.len() > 0
            invariant
                self.max_dict_size == old(self).max_dict_size,
                budget == 8 * self.max_dict_size,
                self.max_dict_size <= MAX_DISTANCE,
                data@.len() <= self.max_dict_size,
                self.total_bytes == concat_all(self.samples()).len(),
                self.total_bytes <= 8 * self.max_dict_size + data@.len(),
                forall|j: int| 0 <= j < self.samples().len() ==> MINMATCH <= #[trigger] self.samples()[j].len() <= self.max_dict_size,
                evict(self.samples(), data@.len() as int, budget as int) == target,
            decreases self.samples@.len(),
        {
            let ghost before = self.samples();
            proof {
                lemma_concat_first(before);
            }
            let front = self.samples.pop_front();
            match front {
                Some(v) => {
                    assert(self.samples() =~= before.drop_first());
                    self.total_bytes = self.total_bytes - v.len();
                },
                None => {},
            }
        }
        self.total_bytes = self.total_bytes + data.len();
        let ghost kept = self.samples();
        self.samples.push_back(vstd::slice::slice_to_vec(data));
        proof {
            assert(self.samples() =~= kept.push(data@));
            assert(concat_all(kept.push(data@)).len() == concat_all(kept).len() + data@.len()) by {
                assert(kept.push(data@).drop_last() =~= kept);
            }
        }
    }

    /// The largest dictionary this trainer builds: the size it was created
    /// with, capped at 65535 bytes.
    pub fn max_dict_size(&self) -> (n: usize)
        ensures
            n == self.max_size(),
    {
        self.max_dict_size
    }

    /// Number of samples added so far.
    pub fn sample_count(&self) -> (n: usize)
        ensures
            n == self.samples().len(),
    {
        self.samples.len()
    }

    /// Total bytes of sample data added so far.
    pub fn total_bytes(&self) -> (n: usize)
        requires
            self.wf(),
        ensures
            n == concat_all(self.samples()).len(),
    {
        self.total_bytes
    }

    /// Train a dictionary from the collected samples. Consumes the
    /// trainer, freeing all sample data.
    ///
    /// Returns a raw byte buffer. If fewer than 2 samples were added,
    /// returns an empty vec.
    pub fn train(self) -> (dict: Vec<u8>)
        requires
            self.wf(),
            self.samples().len() >= 2 ==> self.max_size() / 4 >= D,
        ensures
            self.samples().len() < 2 ==> dict@ == Seq::<u8>::empty(),
            self.samples().len() >= 2 ==> dict@ == cover_dict(self.samples(), self.max_size() as int),
            dict@.len() <= self.max_size(),
    {
        if self.samples.len() < 2 {
            return Vec::new();
        }
        let mut sample_refs: Vec<&[u8]> = Vec::new();
        let mut i: usize = 0;
        while i < self.samples.len()
            invariant
                i <= self.samples@.len(),
                sample_refs@.len() == i,
                forall|j: int| 0 <= j < i ==> #[trigger] sample_refs@[j]@ == self.samples@[j]@,
            decreases self.samples@.len() - i,
        {
            sample_refs.push(self.samples[i].as_slice());
            i = i + 1;
        }
        assert(views(sample_refs@) =~= self.samples());
        proof {
            assert(self.samples().len() >= 2);
            assert(MINMATCH <= self.samples()[0].len());
        }
        cover_select(sample_refs.as_slice(), self.max_dict_size)
    }
}

} // verus!
