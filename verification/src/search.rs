//! The decisions of an IVF search: which lists to probe, which row ranges to
//! scan, which scored rows to keep, and how results are merged and ranked.
//! Scores arrive as `f32` bit patterns computed elsewhere.
use vstd::prelude::*;
use std::collections::HashSet;
use crate::score::{
    score_key, spec_score_key,
    F32_MIN_BITS, ieee_lt, is_nan, is_nan_bits, key_bits, lemma_rank_key_orders_floats, lemma_score_key_monotone, rank_key,
    spec_key_bits, spec_rank_key,
};
use crate::quantize::{float_ge, float_gt, gt_bits};
use crate::topk::{distinct_positions, is_top_k, order_by_rank, outranks, ranked, select_top_k};

verus! {

broadcast use vstd::std_specs::hash::group_hash_axioms;

/// A contiguous range of rows of one IVF list.
pub struct ScanRange {
    pub cluster: usize,
    pub start: usize,
    pub end: usize,
}

/// The IVF lists to probe: the `min(n_probe, n)` lists whose centroids have
/// the largest inner products with the query (`ip[c]`, as `f32` bits).
pub fn probe_clusters(ip: &[u32], n_probe: usize) -> (lists: Vec<usize>)
    requires
        n_probe > 0 && ip.len() > 1 ==> forall|c: int| 0 <= c < ip.len() ==> !is_nan_bits(#[trigger] ip@[c]),
    ensures
        distinct_positions(lists@, ip.len() as int),
        lists.len() == (if n_probe < ip.len() { n_probe as int } else { ip.len() as int }),
        forall|p: int, c: int|
            0 <= p < lists.len() && 0 <= c < ip.len() && !lists@.contains(c as usize) ==> !float_gt(
                #[trigger] ip@[c],
                #[trigger] ip@[lists@[p] as int],
            ),
{
    let mut cands: Vec<(u32, u64)> = Vec::new();
    let mut c: usize = 0;
    while c < ip.len()
        invariant
            c <= ip.len(),
            cands.len() == c,
            forall|t: int| 0 <= t < c ==> #[trigger] cands@[t] == (spec_rank_key(ip@[t]), t as u64),
        decreases ip.len() - c,
    {
        cands.push((rank_key(ip[c]), c as u64));
        c = c + 1;
    }
    let lists = select_top_k(&cands, n_probe, false);
    proof {
        assert forall|p: int, c: int|
            0 <= p < lists.len() && 0 <= c < ip.len() && !lists@.contains(c as usize) implies !float_gt(
            #[trigger] ip@[c],
            #[trigger] ip@[lists@[p] as int],
        ) by {
            let q = lists@[p] as int;
            assert(cands@[c].0 <= cands@[q].0);
            if !is_nan_bits(ip@[c]) && !is_nan_bits(ip@[q]) {
                lemma_rank_key_orders_floats(ip@[q], ip@[c]);
            }
        }
    }
    lists
}

/// The row ranges to scan: for every probed list, in increasing list order,
/// its rows `offsets[c]..offsets[c + 1]`, when that range is not empty.
pub open spec fn spec_scan_ranges(offsets: Seq<i32>, probed: Set<usize>, upto: int) -> Seq<ScanRange>
    decreases upto,
{
    if upto <= 0 {
        Seq::empty()
    } else {
        let c = upto - 1;
        let prev = spec_scan_ranges(offsets, probed, c);
        let start = offsets[c] as int;
        let end = offsets[c + 1] as int;
        if probed.contains(c as usize) && start < end {
            prev.push(ScanRange { cluster: c as usize, start: start as usize, end: end as usize })
        } else {
            prev
        }
    }
}

/// The row ranges of the probed lists (see `spec_scan_ranges`).
pub fn scan_ranges(offsets: &[i32], probed: &[usize]) -> (ranges: Vec<ScanRange>)
    requires
        offsets.len() >= 1,
        forall|c: int| 0 <= c < offsets.len() ==> #[trigger] offsets@[c] >= 0,
    ensures
        ranges@ == spec_scan_ranges(offsets@, probed@.to_set(), offsets.len() - 1),
{
    let n_lists = offsets.len() - 1;
    let mut flags: Vec<bool> = Vec::new();
    let mut c: usize = 0;
    while c < n_lists
        invariant
            c <= n_lists,
            flags.len() == c,
            forall|t: int| 0 <= t < c ==> #[trigger] flags@[t] == false,
        decreases n_lists - c,
    {
        flags.push(false);
        c = c + 1;
    }
    let mut p: usize = 0;
    while p < probed.len()
        invariant
            p <= probed.len(),
            flags.len() == n_lists,
            forall|t: int|
                0 <= t < n_lists ==> #[trigger] flags@[t] == probed@.subrange(0, p as int).contains(t as usize),
        decreases probed.len() - p,
    {
        let q = probed[p];
        if q < n_lists {
            flags.set(q, true);
        }
        p = p + 1;
        proof {
            assert forall|t: int| 0 <= t < n_lists implies #[trigger] flags@[t] == probed@.subrange(
                0,
                p as int,
            ).contains(t as usize) by {
                let before = probed@.subrange(0, p - 1);
                let now = probed@.subrange(0, p as int);
                assert(now == before.push(q));
                if now.contains(t as usize) && t as usize != q {
                    let w = choose|w: int| 0 <= w < now.len() && now[w] == t as usize;
                    assert(before[w] == t as usize);
                }
                if before.contains(t as usize) {
                    let w = choose|w: int| 0 <= w < before.len() && before[w] == t as usize;
                    assert(now[w] == t as usize);
                }
                if t as usize == q {
                    assert(now[p - 1] == q);
                }
            }
        }
    }
    assert(probed@.subrange(0, probed.len() as int) == probed@);
    let mut ranges: Vec<ScanRange> = Vec::new();
    let mut c: usize = 0;
    while c < n_lists
        invariant
            c <= n_lists,
            n_lists + 1 == offsets.len(),
            flags.len() == n_lists,
            forall|t: int| 0 <= t < offsets.len() ==> #[trigger] offsets@[t] >= 0,
            forall|t: int| 0 <= t < n_lists ==> #[trigger] flags@[t] == probed@.contains(t as usize),
            ranges@ == spec_scan_ranges(offsets@, probed@.to_set(), c as int),
        decreases n_lists - c,
    {
        let start = offsets[c] as usize;
        let end = offsets[c + 1] as usize;
        if flags[c] && start < end {
            ranges.push(ScanRange { cluster: c, start, end });
        }
        c = c + 1;
    }
    ranges
}

/// A scored row is considered only when its score is above the lowest finite
/// `f32` (a NaN score is considered too).
pub open spec fn is_eligible(score: u32) -> bool {
    !(float_gt(F32_MIN_BITS, score) || (float_ge(F32_MIN_BITS, score) && float_ge(score, F32_MIN_BITS)))
}

/// Whether a scored row is considered (see `is_eligible`).
pub fn eligible(score: u32) -> (r: bool)
    ensures
        r == is_eligible(score),
{
    if is_nan(score) {
        true
    } else {
        proof {
            assert(!is_nan_bits(F32_MIN_BITS)) by (bit_vector);
            lemma_rank_key_orders_floats(score, F32_MIN_BITS);
            lemma_rank_key_orders_floats(F32_MIN_BITS, score);
        }
        rank_key(score) > rank_key(F32_MIN_BITS)
    }
}

/// The best `k` scored rows of an IVF scan, best first, and the padded
/// result arrays: `scores[i]` (bits) and `ids[i]` (the stored id of the row)
/// for each kept row, then `0.0` and `-1` up to `k` entries.
pub struct IndexHits {
    pub scores: Vec<u32>,
    pub ids: Vec<i64>,
}

/// Keeps the best `k` eligible rows among `(score key, row)` candidates,
/// ranked by key and then by row number, larger first, and reports them
/// with their stored ids, padded to `k` entries.
pub fn rank_index_candidates(cands: &[(u32, u64)], vector_ids: &[i64], k: usize) -> (hits: IndexHits)
    requires
        k > 0 || cands.len() == 0,
        forall|t: int| 0 <= t < cands.len() ==> (#[trigger] cands@[t]).1 < vector_ids.len(),
    ensures
        hits.scores.len() == k,
        hits.ids.len() == k,
        exists|sel: Seq<usize>|
            {
                &&& is_top_k(cands@, sel, k as int)
                &&& ranked(cands@, sel, true)
                &&& forall|i: int|
                    0 <= i < k ==> if i < sel.len() {
                        &&& #[trigger] hits.scores@[i] == spec_key_bits(cands@[sel[i] as int].0)
                        &&& hits.ids@[i] == vector_ids@[cands@[sel[i] as int].1 as int]
                    } else {
                        hits.scores@[i] == 0 && hits.ids@[i] == -1
                    }
            },
{
    let sel = select_top_k(cands, k, true);
    let ord = order_by_rank(cands, &sel, true);
    let mut scores: Vec<u32> = Vec::new();
    let mut ids: Vec<i64> = Vec::new();
    let mut i: usize = 0;
    while i < k
        invariant
            i <= k,
            ord.len() <= k,
            distinct_positions(ord@, cands.len() as int),
            forall|t: int| 0 <= t < cands.len() ==> (#[trigger] cands@[t]).1 < vector_ids.len(),
            scores.len() == i,
            ids.len() == i,
            forall|j: int|
                0 <= j < i ==> if j < ord.len() {
                    &&& #[trigger] scores@[j] == spec_key_bits(cands@[ord[j] as int].0)
                    &&& ids@[j] == vector_ids@[cands@[ord[j] as int].1 as int]
                } else {
                    scores@[j] == 0 && ids@[j] == -1
                },
        decreases k - i,
    {
        if i < ord.len() {
            let c = cands[ord[i]];
            scores.push(key_bits(c.0));
            ids.push(vector_ids[c.1 as usize]);
        } else {
            scores.push(0);
            ids.push(-1);
        }
        i = i + 1;
    }
    proof {
        // the ranked order keeps exactly the selected positions
        assert forall|p: int, j: int|
            0 <= p < ord.len() && 0 <= j < cands.len() && !ord@.contains(j as usize) implies #[trigger] cands@[j].0
            <= #[trigger] cands@[ord@[p] as int].0 by {
            assert(ord@.to_set().contains(ord@[p]));
            assert(sel@.to_set().contains(ord@[p]));
            let w = choose|w: int| 0 <= w < sel.len() && sel@[w] == ord@[p];
            if sel@.contains(j as usize) {
                assert(sel@.to_set().contains(j as usize));
                assert(ord@.to_set().contains(j as usize));
            }
        }
        assert(is_top_k(cands@, ord@, k as int));
        assert(ranked(cands@, ord@, true));
        let sel = ord@;
        assert(forall|i: int|
            0 <= i < k ==> if i < sel.len() {
                &&& #[trigger] scores@[i] == spec_key_bits(cands@[sel[i] as int].0)
                &&& ids@[i] == vector_ids@[cands@[sel[i] as int].1 as int]
            } else {
                scores@[i] == 0 && ids@[i] == -1
            });
    }
    IndexHits { scores, ids }
}

/// The first position of the largest score above the lowest finite `f32`;
/// NaN scores never win; 0 when no score is above that floor.
pub open spec fn is_best_centroid(scores: Seq<u32>, r: int) -> bool {
    if forall|c: int| 0 <= c < scores.len() ==> !float_gt(#[trigger] scores[c], F32_MIN_BITS) {
        r == 0
    } else {
        &&& 0 <= r < scores.len()
        &&& float_gt(scores[r], F32_MIN_BITS)
        &&& forall|c: int|
            0 <= c < scores.len() && #[trigger] float_gt(scores[c], F32_MIN_BITS) ==> !float_gt(
                scores[c],
                scores[r],
            )
        &&& forall|c: int|
            0 <= c < r && #[trigger] float_gt(scores[c], F32_MIN_BITS) ==> float_gt(scores[r], scores[c])
    }
}

/// Index of the best-scoring centroid (see `is_best_centroid`).
pub fn best_centroid(scores: &[u32]) -> (r: usize)
    ensures
        is_best_centroid(scores@, r as int),
{
    let mut best_bits: u32 = F32_MIN_BITS;
    let mut best: usize = 0;
    let mut found = false;
    let mut c: usize = 0;
    proof {
        assert(!is_nan_bits(F32_MIN_BITS)) by (bit_vector);
    }
    while c < scores.len()
        invariant
            c <= scores.len(),
            !is_nan_bits(best_bits),
            !found ==> best == 0 && best_bits == F32_MIN_BITS,
            !found ==> forall|t: int| 0 <= t < c ==> !float_gt(#[trigger] scores@[t], F32_MIN_BITS),
            found ==> {
                &&& best < c
                &&& best_bits == scores@[best as int]
                &&& float_gt(best_bits, F32_MIN_BITS)
                &&& forall|t: int|
                    0 <= t < c && #[trigger] float_gt(scores@[t], F32_MIN_BITS) ==> !float_gt(
                        scores@[t],
                        best_bits,
                    )
                &&& forall|t: int|
                    0 <= t < best && #[trigger] float_gt(scores@[t], F32_MIN_BITS) ==> float_gt(
                        best_bits,
                        scores@[t],
                    )
            },
        decreases scores.len() - c,
    {
        let s = scores[c];
        if gt_bits(s, best_bits) {
            proof {
                lemma_rank_key_orders_floats(best_bits, s);
                lemma_rank_key_orders_floats(F32_MIN_BITS, best_bits);
                assert(!is_nan_bits(F32_MIN_BITS)) by (bit_vector);
                lemma_rank_key_orders_floats(F32_MIN_BITS, s);
                assert forall|t: int|
                    0 <= t < c + 1 && #[trigger] float_gt(scores@[t], F32_MIN_BITS) implies !float_gt(
                    scores@[t],
                    s,
                ) by {
                    let x = scores@[t];
                    lemma_rank_key_orders_floats(F32_MIN_BITS, x);
                    lemma_rank_key_orders_floats(s, x);
                    lemma_rank_key_orders_floats(best_bits, x);
                    lemma_rank_key_orders_floats(x, best_bits);
                }
                assert forall|t: int|
                    0 <= t < c && #[trigger] float_gt(scores@[t], F32_MIN_BITS) implies float_gt(
                    s,
                    scores@[t],
                ) by {
                    let x = scores@[t];
                    lemma_rank_key_orders_floats(s, x);
                    lemma_rank_key_orders_floats(x, s);
                    lemma_rank_key_orders_floats(best_bits, x);
                    lemma_rank_key_orders_floats(x, best_bits);
                }
            }
            best_bits = s;
            best = c;
            found = true;
        } else {
            proof {
                if found {
                    assert forall|t: int|
                        0 <= t < c + 1 && #[trigger] float_gt(scores@[t], F32_MIN_BITS) implies !float_gt(
                        scores@[t],
                        best_bits,
                    ) by {
                    }
                }
            }
        }
        c = c + 1;
    }
    proof {
        if found {
            assert(!forall|t: int| 0 <= t < scores.len() ==> !float_gt(#[trigger] scores@[t], F32_MIN_BITS)) by {
                assert(float_gt(scores@[best as int], F32_MIN_BITS));
            }
        }
    }
    best
}

/// A search result as `(id, score bits)`.
pub type Hit = (u64, u32);

/// Some entry of `hits` has this id.
pub open spec fn has_id(hits: Seq<Hit>, id: u64) -> bool {
    exists|i: int| 0 <= i < hits.len() && #[trigger] hits[i].0 == id
}

/// `results` followed by the entries of `extra`, in order, whose id is not yet present.
pub open spec fn append_new(results: Seq<Hit>, extra: Seq<Hit>) -> Seq<Hit>
    decreases extra.len(),
{
    if extra.len() == 0 {
        results
    } else {
        let r = append_new(results, extra.drop_last());
        if has_id(r, extra.last().0) { r } else { r.push(extra.last()) }
    }
}

/// Ranking candidates for a list of hits: the ranking key of each score,
/// with the hit's position to keep equal scores in their input order.
pub open spec fn rank_table(hits: Seq<Hit>) -> Seq<(u32, u64)> {
    Seq::new(hits.len(), |p: int| (spec_rank_key(hits[p].1), p as u64))
}

/// `out` is the first `k` entries of `hits` sorted by score, best first,
/// entries with equal scores keeping their order (a stable sort).
pub open spec fn is_stable_top(hits: Seq<Hit>, out: Seq<Hit>, k: int) -> bool {
    &&& out.len() == (if k < hits.len() { k } else { hits.len() as int })
    &&& exists|ord: Seq<usize>|
        {
            &&& distinct_positions(ord, hits.len() as int)
            &&& ord.len() == hits.len()
            &&& ranked(rank_table(hits), ord, false)
            &&& forall|i: int| 0 <= i < out.len() ==> #[trigger] out[i] == hits[ord[i] as int]
        }
}

/// Appends to the hits of the index scan those of the flat scan whose id is
/// not present yet, in order (see `append_new`).
pub fn merge_new_hits(indexed: &[Hit], flat: &[Hit]) -> (out: Vec<Hit>)
    ensures
        out@ == append_new(indexed@, flat@),
{
    let mut results: Vec<Hit> = Vec::new();
    let mut i: usize = 0;
    while i < indexed.len()
        invariant
            i <= indexed.len(),
            results@ == indexed@.subrange(0, i as int),
        decreases indexed.len() - i,
    {
        results.push(indexed[i]);
        i = i + 1;
        assert(results@ == indexed@.subrange(0, i as int));
    }
    assert(indexed@.subrange(0, indexed.len() as int) == indexed@);
    let mut f: usize = 0;
    while f < flat.len()
        invariant
            f <= flat.len(),
            results@ == append_new(indexed@, flat@.subrange(0, f as int)),
        decreases flat.len() - f,
    {
        let h = flat[f];
        let mut present = false;
        let mut t: usize = 0;
        while t < results.len()
            invariant
                t <= results.len(),
                present == has_id(results@.subrange(0, t as int), h.0),
            decreases results.len() - t,
        {
            proof {
                let a = results@.subrange(0, t as int);
                let b = results@.subrange(0, t + 1);
                assert(b == a.push(results@[t as int]));
                if has_id(b, h.0) && !has_id(a, h.0) {
                    let w = choose|w: int| 0 <= w < b.len() && b[w].0 == h.0;
                    assert(w == t);
                }
                if has_id(a, h.0) {
                    let w = choose|w: int| 0 <= w < a.len() && a[w].0 == h.0;
                    assert(b[w].0 == h.0);
                }
                if results@[t as int].0 == h.0 {
                    assert(b[t as int].0 == h.0);
                }
            }
            if results[t].0 == h.0 {
                present = true;
            }
            t = t + 1;
        }
        assert(results@.subrange(0, results.len() as int) == results@);
        proof {
            let pre = flat@.subrange(0, f + 1);
            assert(pre.drop_last() == flat@.subrange(0, f as int));
            assert(pre.last() == h);
        }
        if !present {
            results.push(h);
        }
        f = f + 1;
    }
    assert(flat@.subrange(0, flat.len() as int) == flat@);
    results
}

/// Sorts hits by score, best first, keeping equal scores in their order,
/// and keeps the first `top_k` (see `is_stable_top`).
pub fn rank_hits(results: &[Hit], top_k: usize) -> (out: Vec<Hit>)
    requires
        results.len() >= 2 ==> forall|i: int| 0 <= i < results.len() ==> !is_nan_bits((#[trigger] results@[i]).1),
    ensures
        is_stable_top(results@, out@, top_k as int),
{
    let ghost all = results@;
    let mut table: Vec<(u32, u64)> = Vec::new();
    let mut positions: Vec<usize> = Vec::new();
    let mut p: usize = 0;
    while p < results.len()
        invariant
            p <= results.len(),
            all == results@,
            table@ == rank_table(all).subrange(0, p as int),
            positions.len() == p,
            forall|q: int| 0 <= q < p ==> #[trigger] positions@[q] == q,
        decreases results.len() - p,
    {
        table.push((rank_key(results[p].1), p as u64));
        positions.push(p);
        p = p + 1;
        assert(table@ == rank_table(all).subrange(0, p as int));
    }
    assert(table@ == rank_table(all));
    assert(positions@.no_duplicates());
    let ord = order_by_rank(&table, &positions, false);
    let mut out: Vec<Hit> = Vec::new();
    let mut i: usize = 0;
    while i < ord.len() && i < top_k
        invariant
            i <= ord.len(),
            i <= top_k,
            all == results@,
            ord.len() == all.len(),
            distinct_positions(ord@, table.len() as int),
            table.len() == all.len(),
            out.len() == i,
            forall|j: int| 0 <= j < i ==> #[trigger] out@[j] == all[ord@[j] as int],
        decreases ord.len() - i,
    {
        out.push(results[ord[i]]);
        i = i + 1;
    }
    proof {
        assert(out.len() == (if (top_k as int) < all.len() { top_k as int } else { all.len() as int }));
    }
    out
}

/// The rows of the scan ranges, range after range, each range in increasing order.
pub open spec fn range_rows(ranges: Seq<ScanRange>) -> Seq<usize>
    decreases ranges.len(),
{
    if ranges.len() == 0 {
        Seq::empty()
    } else {
        let r = ranges.last();
        range_rows(ranges.drop_last()) + Seq::new(
            (if r.start <= r.end { r.end - r.start } else { 0 }) as nat,
            |i: int| (r.start + i) as usize,
        )
    }
}

/// The candidates of a scan: `(score key, row)` for each scanned row whose
/// score is eligible, in scan order; `scores[t]` is the score of the `t`-th
/// scanned row.
pub open spec fn scan_candidates(rows: Seq<usize>, scores: Seq<u32>) -> Seq<(u32, u64)>
    decreases rows.len(),
{
    if rows.len() == 0 || scores.len() != rows.len() {
        Seq::empty()
    } else {
        let prev = scan_candidates(rows.drop_last(), scores.drop_last());
        if is_eligible(scores.last()) {
            prev.push((spec_score_key(scores.last()), rows.last() as u64))
        } else {
            prev
        }
    }
}

/// The rows of the scan ranges, in scan order (see `range_rows`).
pub fn scan_rows(ranges: &[ScanRange]) -> (rows: Vec<usize>)
    ensures
        rows@ == range_rows(ranges@),
{
    let mut rows: Vec<usize> = Vec::new();
    let mut r: usize = 0;
    while r < ranges.len()
        invariant
            r <= ranges.len(),
            rows@ == range_rows(ranges@.subrange(0, r as int)),
        decreases ranges.len() - r,
    {
        let ghost before = rows@;
        let rg = &ranges[r];
        let mut i = rg.start;
        while i < rg.end
            invariant
                rg.start <= i <= rg.end || (rg.end < rg.start && i == rg.start),
                rows@ == before + Seq::new((i - rg.start) as nat, |t: int| (rg.start + t) as usize),
            decreases rg.end - i,
        {
            rows.push(i);
            i = i + 1;
            assert(rows@ == before + Seq::new((i - rg.start) as nat, |t: int| (rg.start + t) as usize));
        }
        proof {
            let pre = ranges@.subrange(0, r + 1);
            assert(pre.drop_last() == ranges@.subrange(0, r as int));
            assert(pre.last() == *rg);
            if rg.start > rg.end {
                assert(rows@ == before + Seq::new(0, |t: int| (rg.start + t) as usize));
            }
        }
        r = r + 1;
    }
    assert(ranges@.subrange(0, ranges.len() as int) == ranges@);
    rows
}

/// The candidates of a scan (see `scan_candidates`).
pub fn index_candidates(rows: &[usize], scores: &[u32]) -> (c: Vec<(u32, u64)>)
    requires
        rows.len() == scores.len(),
    ensures
        c@ == scan_candidates(rows@, scores@),
{
    let mut c: Vec<(u32, u64)> = Vec::new();
    let mut t: usize = 0;
    while t < rows.len()
        invariant
            t <= rows.len(),
            rows.len() == scores.len(),
            c@ == scan_candidates(rows@.subrange(0, t as int), scores@.subrange(0, t as int)),
        decreases rows.len() - t,
    {
        proof {
            let pr = rows@.subrange(0, t + 1);
            let ps = scores@.subrange(0, t + 1);
            assert(pr.drop_last() == rows@.subrange(0, t as int));
            assert(ps.drop_last() == scores@.subrange(0, t as int));
        }
        if eligible(scores[t]) {
            c.push((score_key(scores[t]), rows[t] as u64));
        }
        t = t + 1;
    }
    assert(rows@.subrange(0, rows.len() as int) == rows@);
    assert(scores@.subrange(0, scores.len() as int) == scores@);
    c
}

/// The table a flat scan ranks: `(score key, id)` for each `(id, score)`.
pub open spec fn flat_table(scored: Seq<Hit>) -> Seq<(u32, u64)> {
    Seq::new(scored.len(), |i: int| (spec_score_key(scored[i].1), scored[i].0))
}

/// The best `top_k` of the flat scan's `(id, score)` pairs: kept while fewer
/// than `top_k` are held, afterwards admitted only with a key larger than the
/// lowest kept one, which leaves (on equal keys the larger id leaves first).
pub fn flat_top_hits(scored: &[Hit], top_k: usize) -> (hits: Vec<Hit>)
    requires
        top_k > 0 || scored.len() == 0,
    ensures
        exists|sel: Seq<usize>|
            {
                &&& is_top_k(flat_table(scored@), sel, top_k as int)
                &&& hits.len() == sel.len()
                &&& forall|i: int| 0 <= i < sel.len() ==> #[trigger] hits@[i] == scored@[sel[i] as int]
            },
{
    let mut table: Vec<(u32, u64)> = Vec::new();
    let mut i: usize = 0;
    while i < scored.len()
        invariant
            i <= scored.len(),
            table@ == flat_table(scored@).subrange(0, i as int),
        decreases scored.len() - i,
    {
        table.push((score_key(scored[i].1), scored[i].0));
        i = i + 1;
        assert(table@ == flat_table(scored@).subrange(0, i as int));
    }
    assert(table@ == flat_table(scored@));
    let sel = select_top_k(&table, top_k, false);
    let mut hits: Vec<Hit> = Vec::new();
    let mut j: usize = 0;
    while j < sel.len()
        invariant
            j <= sel.len(),
            table.len() == scored.len(),
            distinct_positions(sel@, table.len() as int),
            hits.len() == j,
            forall|t: int| 0 <= t < j ==> #[trigger] hits@[t] == scored@[sel@[t] as int],
        decreases sel.len() - j,
    {
        hits.push(scored[sel[j]]);
        j = j + 1;
    }
    hits
}

/// The list of each scanned row, parallel to `range_rows`.
pub open spec fn range_lists(ranges: Seq<ScanRange>) -> Seq<usize>
    decreases ranges.len(),
{
    if ranges.len() == 0 {
        Seq::empty()
    } else {
        let r = ranges.last();
        range_lists(ranges.drop_last()) + Seq::new(
            (if r.start <= r.end { r.end - r.start } else { 0 }) as nat,
            |i: int| r.cluster,
        )
    }
}

/// `probed` is a valid probe set for the inner products `ip` (see `probe_clusters`).
pub open spec fn is_probe_set(ip: Seq<u32>, n_probe: int, probed: Seq<usize>) -> bool {
    &&& distinct_positions(probed, ip.len() as int)
    &&& probed.len() == (if n_probe < ip.len() { n_probe } else { ip.len() as int })
    &&& forall|p: int, c: int|
        0 <= p < probed.len() && 0 <= c < ip.len() && !probed.contains(c as usize) ==> !float_gt(
            #[trigger] ip[c],
            #[trigger] ip[probed[p] as int],
        )
}

/// `hits` reports the best `k` of `cands`, best first, padded to `k` entries
/// (see `rank_index_candidates`).
pub open spec fn reports_top(cands: Seq<(u32, u64)>, vector_ids: Seq<i64>, k: int, hits: IndexHits) -> bool {
    &&& hits.scores.len() == k
    &&& hits.ids.len() == k
    &&& exists|sel: Seq<usize>|
        {
            &&& is_top_k(cands, sel, k)
            &&& ranked(cands, sel, true)
            &&& forall|i: int|
                0 <= i < k ==> if i < sel.len() {
                    &&& #[trigger] hits.scores@[i] == spec_key_bits(cands[sel[i] as int].0)
                    &&& hits.ids@[i] == vector_ids[cands[sel[i] as int].1 as int]
                } else {
                    hits.scores@[i] == 0 && hits.ids@[i] == -1
                }
        }
}

/// `(list, row)` for each scanned row, in scan order.
pub open spec fn scan_pairs(ranges: Seq<ScanRange>) -> Seq<(usize, usize)> {
    Seq::new(range_rows(ranges).len(), |t: int| (range_lists(ranges)[t], range_rows(ranges)[t]))
}

/// Whether the id filter lets an id through: every id passes when there is no filter.
pub open spec fn admits(allowed: Option<Set<i64>>, id: i64) -> bool {
    match allowed {
        Some(s) => s.contains(id),
        None => true,
    }
}

/// The scanned `(list, row)` pairs whose stored id the filter lets through, in scan order.
pub open spec fn admitted(pairs: Seq<(usize, usize)>, vector_ids: Seq<i64>, allowed: Option<Set<i64>>) -> Seq<(usize, usize)>
    decreases pairs.len(),
{
    if pairs.len() == 0 {
        Seq::empty()
    } else {
        let prev = admitted(pairs.drop_last(), vector_ids, allowed);
        if admits(allowed, vector_ids[pairs.last().1 as int]) {
            prev.push(pairs.last())
        } else {
            prev
        }
    }
}

/// The filter as a set of ids.
pub open spec fn allowed_view(allowed: Option<&HashSet<i64>>) -> Option<Set<i64>> {
    match allowed {
        Some(s) => Some(s@),
        None => None,
    }
}

/// What an IVF search reports, given the lists it probed and the scores
/// its admitted rows received (see `tq_unified_search`).
pub open spec fn unified_outcome<F: Fn(usize, usize) -> u32>(
    ip: Seq<u32>,
    offsets: Seq<i32>,
    vector_ids: Seq<i64>,
    n_probe: usize,
    top_k: usize,
    score: F,
    allowed: Option<Set<i64>>,
    probed: Seq<usize>,
    scores: Seq<u32>,
    r: Option<IndexHits>,
) -> bool {
    let ranges = spec_scan_ranges(offsets, probed.to_set(), ip.len() as int);
    let kept = admitted(scan_pairs(ranges), vector_ids, allowed);
    let rows = kept.map_values(|p: (usize, usize)| p.1);
    let cands = scan_candidates(rows, scores);
    &&& is_probe_set(ip, n_probe as int, probed)
    &&& scores.len() == kept.len()
    &&& forall|t: int| 0 <= t < kept.len() ==> call_ensures(score, kept[t], #[trigger] scores[t])
    &&& (r is None <==> (top_k == 0 && cands.len() > 0))
    &&& r matches Some(hits) ==> reports_top(cands, vector_ids, top_k as int, hits)
}

/// The list of each scanned row, in scan order (see `range_lists`).
fn scan_lists(ranges: &[ScanRange]) -> (lists: Vec<usize>)
    ensures
        lists@ == range_lists(ranges@),
{
    let mut lists: Vec<usize> = Vec::new();
    let mut r: usize = 0;
    while r < ranges.len()
        invariant
            r <= ranges.len(),
            lists@ == range_lists(ranges@.subrange(0, r as int)),
        decreases ranges.len() - r,
    {
        let ghost before = lists@;
        let rg = &ranges[r];
        let mut i = rg.start;
        while i < rg.end
            invariant
                rg.start <= i <= rg.end || (rg.end < rg.start && i == rg.start),
                lists@ == before + Seq::new((i - rg.start) as nat, |t: int| rg.cluster),
            decreases rg.end - i,
        {
            lists.push(rg.cluster);
            i = i + 1;
            assert(lists@ == before + Seq::new((i - rg.start) as nat, |t: int| rg.cluster));
        }
        proof {
            let pre = ranges@.subrange(0, r + 1);
            assert(pre.drop_last() == ranges@.subrange(0, r as int));
            assert(pre.last() == *rg);
            if rg.start > rg.end {
                assert(lists@ == before + Seq::new(0, |t: int| rg.cluster));
            }
        }
        r = r + 1;
    }
    assert(ranges@.subrange(0, ranges.len() as int) == ranges@);
    lists
}

/// One IVF search: probes the lists whose centroids have the largest inner
/// products `ip` with the query, scores every row of every probed list whose
/// stored id the filter `allowed` lets through with `score(list, row)` (an
/// `f32` bit pattern, the list's inner product included; rows the filter
/// holds back are never scored), and reports the best `top_k` eligible rows,
/// best first, padded with `0.0` and `-1`. With `top_k == 0` and some
/// eligible row there is no report (`None`).
pub fn tq_unified_search<F: Fn(usize, usize) -> u32>(
    ip: &[u32],
    offsets: &[i32],
    vector_ids: &[i64],
    n_probe: usize,
    top_k: usize,
    score: F,
    allowed: Option<&HashSet<i64>>,
) -> (r: Option<IndexHits>)
    requires
        offsets.len() == ip.len() + 1,
        forall|c: int|
            0 <= c < offsets.len() ==> 0 <= #[trigger] offsets@[c] && offsets@[c] <= vector_ids.len(),
        n_probe > 0 && ip.len() > 1 ==> forall|c: int| 0 <= c < ip.len() ==> !is_nan_bits(#[trigger] ip@[c]),
        forall|c: usize, i: usize| call_requires(score, (c, i)),
    ensures
        exists|probed: Seq<usize>, scores: Seq<u32>|
            #[trigger] unified_outcome(
                ip@,
                offsets@,
                vector_ids@,
                n_probe,
                top_k,
                score,
                allowed_view(allowed),
                probed,
                scores,
                r,
            ),
{
    let probed = probe_clusters(ip, n_probe);
    let ranges = scan_ranges(offsets, &probed);
    let all_rows = scan_rows(&ranges);
    let all_lists = scan_lists(&ranges);
    let ghost pairs = scan_pairs(ranges@);
    let ghost av = allowed_view(allowed);
    proof {
        lemma_range_rows_within(offsets@, probed@.to_set(), ip.len() as int, vector_ids.len() as int);
        lemma_range_rows_lists_len(ranges@);
    }
    let mut kept: Vec<(usize, usize)> = Vec::new();
    let mut scores: Vec<u32> = Vec::new();
    let mut t: usize = 0;
    while t < all_rows.len()
        invariant
            t <= all_rows.len(),
            all_rows.len() == all_lists.len(),
            pairs == Seq::new(all_rows@.len(), |u: int| (all_lists@[u], all_rows@[u])),
            forall|u: int| 0 <= u < all_rows.len() ==> (#[trigger] all_rows@[u] as int) < vector_ids.len(),
            av == allowed_view(allowed),
            forall|c: usize, i: usize| call_requires(score, (c, i)),
            kept@ == admitted(pairs.subrange(0, t as int), vector_ids@, av),
            scores.len() == kept.len(),
            forall|u: int| 0 <= u < kept.len() ==> call_ensures(score, kept@[u], #[trigger] scores@[u]),
        decreases all_rows.len() - t,
    {
        let row = all_rows[t];
        let list = all_lists[t];
        let id = vector_ids[row];
        let pass = match allowed {
            Some(set) => set.contains(&id),
            None => true,
        };
        proof {
            let pre = pairs.subrange(0, t + 1);
            assert(pre.drop_last() == pairs.subrange(0, t as int));
            assert(pre.last() == (list, row));
            assert(pass == admits(av, vector_ids@[row as int]));
        }
        if pass {
            let s = score(list, row);
            kept.push((list, row));
            scores.push(s);
        }
        t = t + 1;
    }
    assert(pairs.subrange(0, all_rows.len() as int) == pairs);
    let mut rows: Vec<usize> = Vec::new();
    let mut u: usize = 0;
    while u < kept.len()
        invariant
            u <= kept.len(),
            rows@ == kept@.subrange(0, u as int).map_values(|p: (usize, usize)| p.1),
        decreases kept.len() - u,
    {
        rows.push(kept[u].1);
        u = u + 1;
        assert(rows@ == kept@.subrange(0, u as int).map_values(|p: (usize, usize)| p.1));
    }
    assert(kept@.subrange(0, kept.len() as int) == kept@);
    proof {
        lemma_admitted_rows_within(pairs, vector_ids@, av);
    }
    let cands = index_candidates(&rows, &scores);
    proof {
        lemma_scan_candidates_rows(rows@, scores@, vector_ids.len() as int);
    }
    if top_k == 0 && cands.len() > 0 {
        proof {
            assert(unified_outcome(ip@, offsets@, vector_ids@, n_probe, top_k, score, av, probed@, scores@, None));
        }
        return None;
    }
    let hits = rank_index_candidates(&cands, vector_ids, top_k);
    let r = Some(hits);
    proof {
        assert(unified_outcome(ip@, offsets@, vector_ids@, n_probe, top_k, score, av, probed@, scores@, r));
    }
    r
}

/// Every admitted pair is a scanned pair, so its row is below the bound the scanned rows have.
proof fn lemma_admitted_rows_within(pairs: Seq<(usize, usize)>, vector_ids: Seq<i64>, allowed: Option<Set<i64>>)
    requires
        forall|u: int| 0 <= u < pairs.len() ==> (#[trigger] pairs[u].1 as int) < vector_ids.len(),
    ensures
        forall|u: int|
            0 <= u < admitted(pairs, vector_ids, allowed).len() ==> (#[trigger] admitted(
                pairs,
                vector_ids,
                allowed,
            )[u].1 as int) < vector_ids.len(),
    decreases pairs.len(),
{
    if pairs.len() > 0 {
        let p0 = pairs.drop_last();
        assert forall|u: int| 0 <= u < p0.len() implies (#[trigger] p0[u].1 as int) < vector_ids.len() by {
            assert(p0[u] == pairs[u]);
        }
        lemma_admitted_rows_within(p0, vector_ids, allowed);
        let prev = admitted(p0, vector_ids, allowed);
        let now = admitted(pairs, vector_ids, allowed);
        assert(pairs.last() == pairs[pairs.len() - 1]);
        assert forall|u: int| 0 <= u < now.len() implies (#[trigger] now[u].1 as int) < vector_ids.len() by {
            if u < prev.len() {
                assert(now[u] == prev[u]);
            }
        }
    }
}

/// A filter that lets every row through admits every pair.
proof fn lemma_admitting_all(pairs: Seq<(usize, usize)>, vector_ids: Seq<i64>, allowed: Option<Set<i64>>)
    requires
        forall|u: int| 0 <= u < pairs.len() ==> admits(allowed, vector_ids[#[trigger] pairs[u].1 as int]),
    ensures
        admitted(pairs, vector_ids, allowed) == pairs,
    decreases pairs.len(),
{
    if pairs.len() > 0 {
        let p0 = pairs.drop_last();
        assert forall|u: int| 0 <= u < p0.len() implies admits(allowed, vector_ids[#[trigger] p0[u].1 as int]) by {
            assert(p0[u] == pairs[u]);
        }
        lemma_admitting_all(p0, vector_ids, allowed);
        assert(pairs.last() == pairs[pairs.len() - 1]);
        assert(p0.push(pairs.last()) == pairs);
    }
}

/// A filter that holds every stored id changes nothing: the outcomes a
/// search may report with it are exactly those it may report without one.
pub proof fn lemma_filter_admitting_all_ids_changes_nothing<F: Fn(usize, usize) -> u32>(
    ip: Seq<u32>,
    offsets: Seq<i32>,
    vector_ids: Seq<i64>,
    n_probe: usize,
    top_k: usize,
    score: F,
    allowed: Set<i64>,
    probed: Seq<usize>,
    scores: Seq<u32>,
    r: Option<IndexHits>,
)
    requires
        offsets.len() == ip.len() + 1,
        forall|c: int| 0 <= c < offsets.len() ==> 0 <= #[trigger] offsets[c] && offsets[c] <= vector_ids.len(),
        forall|i: int| 0 <= i < vector_ids.len() ==> allowed.contains(#[trigger] vector_ids[i]),
    ensures
        unified_outcome(ip, offsets, vector_ids, n_probe, top_k, score, Some(allowed), probed, scores, r)
            == unified_outcome(ip, offsets, vector_ids, n_probe, top_k, score, None, probed, scores, r),
{
    let ranges = spec_scan_ranges(offsets, probed.to_set(), ip.len() as int);
    let pairs = scan_pairs(ranges);
    lemma_range_rows_within(offsets, probed.to_set(), ip.len() as int, vector_ids.len() as int);
    lemma_range_rows_lists_len(ranges);
    assert forall|u: int| 0 <= u < pairs.len() implies admits(Some(allowed), vector_ids[#[trigger] pairs[u].1 as int]) by {
        assert(pairs[u].1 == range_rows(ranges)[u]);
        assert(allowed.contains(vector_ids[pairs[u].1 as int]));
    }
    lemma_admitting_all(pairs, vector_ids, Some(allowed));
    lemma_admitting_all(pairs, vector_ids, None);
}

proof fn lemma_range_rows_lists_len(ranges: Seq<ScanRange>)
    ensures
        range_rows(ranges).len() == range_lists(ranges).len(),
    decreases ranges.len(),
{
    if ranges.len() > 0 {
        lemma_range_rows_lists_len(ranges.drop_last());
    }
}

/// Rows of the scan ranges lie below every list end, hence below `limit`.
proof fn lemma_range_rows_within(offsets: Seq<i32>, probed: Set<usize>, upto: int, limit: int)
    requires
        0 <= upto < offsets.len(),
        forall|c: int| 0 <= c < offsets.len() ==> 0 <= #[trigger] offsets[c] && offsets[c] <= limit,
    ensures
        forall|t: int|
            0 <= t < range_rows(spec_scan_ranges(offsets, probed, upto)).len() ==> (#[trigger] range_rows(
                spec_scan_ranges(offsets, probed, upto),
            )[t] as int) < limit,
    decreases upto,
{
    if upto > 0 {
        lemma_range_rows_within(offsets, probed, upto - 1, limit);
        let c = upto - 1;
        let prev = spec_scan_ranges(offsets, probed, c);
        let start = offsets[c] as int;
        let end = offsets[c + 1] as int;
        if probed.contains(c as usize) && start < end {
            let rg = ScanRange { cluster: c as usize, start: start as usize, end: end as usize };
            let now = prev.push(rg);
            assert(now.drop_last() == prev);
            assert(now.last() == rg);
            let rows = range_rows(now);
            assert(rows == range_rows(prev) + Seq::new((end - start) as nat, |i: int| (start + i) as usize));
        }
    }
}

/// Every candidate of a scan names one of the scanned rows.
proof fn lemma_scan_candidates_rows(rows: Seq<usize>, scores: Seq<u32>, limit: int)
    requires
        rows.len() == scores.len(),
        forall|t: int| 0 <= t < rows.len() ==> (#[trigger] rows[t] as int) < limit,
    ensures
        forall|t: int|
            0 <= t < scan_candidates(rows, scores).len() ==> ((#[trigger] scan_candidates(rows, scores)[t]).1
                as int) < limit,
    decreases rows.len(),
{
    if rows.len() > 0 && scores.len() == rows.len() {
        let r0 = rows.drop_last();
        let s0 = scores.drop_last();
        assert forall|t: int| 0 <= t < r0.len() implies (#[trigger] r0[t] as int) < limit by {
            assert(r0[t] == rows[t]);
        }
        lemma_scan_candidates_rows(r0, s0, limit);
        let prev = scan_candidates(r0, s0);
        let now = scan_candidates(rows, scores);
        assert(rows.last() == rows[rows.len() - 1]);
        assert forall|t: int| 0 <= t < now.len() implies ((#[trigger] now[t]).1 as int) < limit by {
            if t < prev.len() {
                assert(now[t] == prev[t]);
            }
        }
    }
}

/// Ranked results never rise: in the output of a stable ranking of non-NaN
/// scores, no result has a smaller score (as floats) than one after it.
pub proof fn lemma_ranked_hits_descend(hits: Seq<Hit>, out: Seq<Hit>, k: int, i: int, j: int)
    requires
        is_stable_top(hits, out, k),
        forall|t: int| 0 <= t < hits.len() ==> !is_nan_bits(#[trigger] hits[t].1),
        0 <= i < j < out.len(),
    ensures
        !ieee_lt(out[i].1, out[j].1),
{
    let ord = choose|ord: Seq<usize>|
        {
            &&& distinct_positions(ord, hits.len() as int)
            &&& ord.len() == hits.len()
            &&& ranked(rank_table(hits), ord, false)
            &&& forall|t: int| 0 <= t < out.len() ==> #[trigger] out[t] == hits[ord[t] as int]
        };
    let table = rank_table(hits);
    assert(!outranks(table[ord[j] as int], table[ord[i] as int], false));
    assert(out[i] == hits[ord[i] as int]);
    assert(out[j] == hits[ord[j] as int]);
    lemma_rank_key_orders_floats(out[i].1, out[j].1);
}

/// Merging never repeats an id: when the index hits have distinct ids, so
/// does their merge with the flat hits.
pub proof fn lemma_merge_keeps_ids_distinct(indexed: Seq<Hit>, flat: Seq<Hit>)
    requires
        forall|a: int, b: int| 0 <= a < b < indexed.len() ==> indexed[a].0 != indexed[b].0,
    ensures
        forall|a: int, b: int|
            0 <= a < b < append_new(indexed, flat).len() ==> append_new(indexed, flat)[a].0 != append_new(
                indexed,
                flat,
            )[b].0,
    decreases flat.len(),
{
    if flat.len() > 0 {
        lemma_merge_keeps_ids_distinct(indexed, flat.drop_last());
        let r = append_new(indexed, flat.drop_last());
        if !has_id(r, flat.last().0) {
            let now = r.push(flat.last());
            assert forall|a: int, b: int| 0 <= a < b < now.len() implies now[a].0 != now[b].0 by {
                if b == now.len() - 1 {
                    assert(now[a] == r[a]);
                    if r[a].0 == flat.last().0 {
                        assert(has_id(r, flat.last().0));
                    }
                } else {
                    assert(now[a] == r[a]);
                    assert(now[b] == r[b]);
                }
            }
        }
    }
}

/// Every merged hit is an index hit or a flat hit.
pub proof fn lemma_merged_hits_come_from_inputs(indexed: Seq<Hit>, flat: Seq<Hit>, t: int)
    requires
        0 <= t < append_new(indexed, flat).len(),
    ensures
        indexed.contains(append_new(indexed, flat)[t]) || flat.contains(append_new(indexed, flat)[t]),
    decreases flat.len(),
{
    if flat.len() > 0 {
        let r = append_new(indexed, flat.drop_last());
        if t < r.len() {
            assert(append_new(indexed, flat)[t] == r[t]);
            lemma_merged_hits_come_from_inputs(indexed, flat.drop_last(), t);
            if flat.drop_last().contains(r[t]) {
                let w = choose|w: int| 0 <= w < flat.drop_last().len() && flat.drop_last()[w] == r[t];
                assert(flat[w] == r[t]);
            }
        } else {
            assert(append_new(indexed, flat)[t] == flat.last());
            assert(flat[flat.len() - 1] == flat.last());
        }
    } else {
        assert(indexed[t] == append_new(indexed, flat)[t]);
    }
}

/// Every ranked result is one of the hits ranked.
pub proof fn lemma_ranked_hits_come_from_inputs(hits: Seq<Hit>, out: Seq<Hit>, k: int, t: int)
    requires
        is_stable_top(hits, out, k),
        0 <= t < out.len(),
    ensures
        hits.contains(out[t]),
{
    let ord = choose|ord: Seq<usize>|
        {
            &&& distinct_positions(ord, hits.len() as int)
            &&& ord.len() == hits.len()
            &&& ranked(rank_table(hits), ord, false)
            &&& forall|i: int| 0 <= i < out.len() ==> #[trigger] out[i] == hits[ord[i] as int]
        };
    assert(out[t] == hits[ord[t] as int]);
}

/// The index's contribution to a result list: each live index hit with its
/// index score, or with its exact score (`exact[t]` for the `t`-th live hit)
/// when re-ranking.
pub fn index_result_hits(
    live: &[(usize, u64, (usize, usize))],
    index_scores: &[u32],
    rerank: bool,
    exact: &[u32],
) -> (hits: Vec<Hit>)
    requires
        forall|t: int| 0 <= t < live.len() ==> (#[trigger] live@[t]).0 < index_scores.len(),
        rerank ==> exact.len() == live.len(),
    ensures
        hits.len() == live.len(),
        forall|t: int|
            0 <= t < live.len() ==> #[trigger] hits@[t] == (
                live@[t].1,
                if rerank { exact@[t] } else { index_scores@[live@[t].0 as int] },
            ),
{
    let mut hits: Vec<Hit> = Vec::new();
    let mut t: usize = 0;
    while t < live.len()
        invariant
            t <= live.len(),
            forall|u: int| 0 <= u < live.len() ==> (#[trigger] live@[u]).0 < index_scores.len(),
            rerank ==> exact.len() == live.len(),
            hits.len() == t,
            forall|u: int|
                0 <= u < t ==> #[trigger] hits@[u] == (
                    live@[u].1,
                    if rerank { exact@[u] } else { index_scores@[live@[u].0 as int] },
                ),
        decreases live.len() - t,
    {
        let (pos, uid, _) = live[t];
        let s = if rerank { exact[t] } else { index_scores[pos] };
        hits.push((uid, s));
        t = t + 1;
    }
    hits
}

/// Ranking merged hits never brings in an id from elsewhere: when every
/// index hit and every flat hit names an id of `stored`, so does every result.
pub proof fn lemma_results_from_stored_ids(stored: Set<u64>, indexed: Seq<Hit>, flat: Seq<Hit>, out: Seq<Hit>, k: int)
    requires
        forall|i: int| 0 <= i < indexed.len() ==> stored.contains(#[trigger] indexed[i].0),
        forall|i: int| 0 <= i < flat.len() ==> stored.contains(#[trigger] flat[i].0),
        is_stable_top(append_new(indexed, flat), out, k),
    ensures
        forall|t: int| 0 <= t < out.len() ==> stored.contains(#[trigger] out[t].0),
{
    let merged = append_new(indexed, flat);
    assert forall|t: int| 0 <= t < out.len() implies stored.contains(#[trigger] out[t].0) by {
        lemma_ranked_hits_come_from_inputs(merged, out, k, t);
        let w = choose|w: int| 0 <= w < merged.len() && merged[w] == out[t];
        lemma_merged_hits_come_from_inputs(indexed, flat, w);
        if indexed.contains(merged[w]) {
            let a = choose|a: int| 0 <= a < indexed.len() && indexed[a] == merged[w];
            assert(stored.contains(indexed[a].0));
        } else {
            let a = choose|a: int| 0 <= a < flat.len() && flat[a] == merged[w];
            assert(stored.contains(flat[a].0));
        }
    }
}

/// Every row of every probed list is scanned, tagged with its list: when `c`
/// is probed and `offsets[c] <= r < offsets[c + 1]`, row `r` appears among the
/// rows of the scan ranges, at a position whose list is `c`.
pub proof fn lemma_probed_rows_are_scanned(offsets: Seq<i32>, probed: Set<usize>, upto: int, c: int, r: int)
    requires
        0 <= c < upto < offsets.len(),
        forall|t: int| 0 <= t < offsets.len() ==> 0 <= #[trigger] offsets[t],
        probed.contains(c as usize),
        offsets[c] <= r < offsets[c + 1],
    ensures
        exists|t: int|
            0 <= t < range_rows(spec_scan_ranges(offsets, probed, upto)).len()
                && #[trigger] range_rows(spec_scan_ranges(offsets, probed, upto))[t] == r as usize
                && range_lists(spec_scan_ranges(offsets, probed, upto))[t] == c as usize,
    decreases upto,
{
    let prev = spec_scan_ranges(offsets, probed, upto - 1);
    let now = spec_scan_ranges(offsets, probed, upto);
    lemma_range_rows_lists_len(prev);
    lemma_range_rows_lists_len(now);
    let d = upto - 1;
    let start = offsets[d] as int;
    let end = offsets[d + 1] as int;
    if d == c {
        let rg = ScanRange { cluster: d as usize, start: start as usize, end: end as usize };
        assert(now == prev.push(rg));
        assert(now.drop_last() == prev);
        assert(now.last() == rg);
        let t = range_rows(prev).len() + (r - start);
        assert(range_rows(now)[t] == r as usize);
        assert(range_lists(now)[t] == c as usize);
    } else {
        lemma_probed_rows_are_scanned(offsets, probed, upto - 1, c, r);
        let t = choose|t: int|
            0 <= t < range_rows(prev).len() && #[trigger] range_rows(prev)[t] == r as usize && range_lists(prev)[t]
                == c as usize;
        if probed.contains(d as usize) && start < end {
            let rg = ScanRange { cluster: d as usize, start: start as usize, end: end as usize };
            assert(now.drop_last() == prev);
            assert(now.last() == rg);
            assert(range_rows(now)[t] == range_rows(prev)[t]);
            assert(range_lists(now)[t] == range_lists(prev)[t]);
        }
    }
}

/// Only rows of probed lists are scanned: each scanned row lies within the
/// range of the list it is tagged with, and that list is probed.
pub proof fn lemma_scanned_rows_are_probed(offsets: Seq<i32>, probed: Set<usize>, upto: int, t: int)
    requires
        0 <= upto < offsets.len() <= usize::MAX,
        forall|u: int| 0 <= u < offsets.len() ==> 0 <= #[trigger] offsets[u],
        0 <= t < range_rows(spec_scan_ranges(offsets, probed, upto)).len(),
    ensures
        ({
            let ranges = spec_scan_ranges(offsets, probed, upto);
            let c = range_lists(ranges)[t] as int;
            &&& 0 <= c < upto
            &&& probed.contains(c as usize)
            &&& offsets[c] <= range_rows(ranges)[t] < offsets[c + 1]
        }),
    decreases upto,
{
    let now = spec_scan_ranges(offsets, probed, upto);
    if upto == 0 {
        assert(now.len() == 0);
        assert(range_rows(now).len() == 0);
    } else {
        let prev = spec_scan_ranges(offsets, probed, upto - 1);
        lemma_range_rows_lists_len(prev);
        lemma_range_rows_lists_len(now);
        let d = upto - 1;
        let start = offsets[d] as int;
        let end = offsets[d + 1] as int;
        if probed.contains(d as usize) && start < end {
            let rg = ScanRange { cluster: d as usize, start: start as usize, end: end as usize };
            assert(now == prev.push(rg));
            assert(now.drop_last() == prev);
            assert(now.last() == rg);
            assert(range_rows(now) == range_rows(prev) + Seq::new(
                (end - start) as nat,
                |i: int| (rg.start + i) as usize,
            ));
            assert(range_lists(now) == range_lists(prev) + Seq::new((end - start) as nat, |i: int| rg.cluster));
            if t < range_rows(prev).len() {
                lemma_scanned_rows_are_probed(offsets, probed, upto - 1, t);
                assert(range_rows(now)[t] == range_rows(prev)[t]);
                assert(range_lists(now)[t] == range_lists(prev)[t]);
            } else {
                let i = t - range_rows(prev).len();
                assert(0 <= i < end - start);
                assert(range_lists(now)[t] == d as usize);
                assert(range_rows(now)[t] == (start + i) as usize);
            }
        } else {
            assert(now == prev);
            lemma_scanned_rows_are_probed(offsets, probed, upto - 1, t);
        }
    }
}

/// The flat selection keeps the best scores by float value: no scored hit
/// left out has a larger score than a kept one (NaN scores aside).
pub proof fn lemma_flat_selection_keeps_best_floats(scored: Seq<Hit>, sel: Seq<usize>, k: int, i: int, j: int)
    requires
        is_top_k(flat_table(scored), sel, k),
        0 <= i < sel.len(),
        0 <= j < scored.len(),
        !sel.contains(j as usize),
        !is_nan_bits(scored[j].1),
        !is_nan_bits(scored[sel[i] as int].1),
    ensures
        !ieee_lt(scored[sel[i] as int].1, scored[j].1),
{
    let table = flat_table(scored);
    assert(table[j].0 <= table[sel[i] as int].0);
    lemma_score_key_monotone(scored[sel[i] as int].1, scored[j].1);
}

} // verus!
