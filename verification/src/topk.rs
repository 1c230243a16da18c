//! Bounded best-`k` selection and ranking over scored candidates.
//!
//! A candidate is a pair `(key, item)`: `key` orders candidates (larger is
//! better) and `item` breaks ties, larger-first or smaller-first. Selection
//! keeps at most `k` candidates, admitting a new one only when its key beats
//! the lowest-ranked kept one, which it then replaces. Results are positions
//! into the candidate list.
use vstd::prelude::*;

verus! {

/// `a` ranks before `b`: a larger key, or an equal key and an item that comes
/// first (larger first when `high_first`, else smaller first).
pub open spec fn outranks(a: (u32, u64), b: (u32, u64), high_first: bool) -> bool {
    a.0 > b.0 || (a.0 == b.0 && (if high_first { a.1 > b.1 } else { a.1 < b.1 }))
}

/// `pos` lists distinct positions of `cands`.
pub open spec fn distinct_positions(pos: Seq<usize>, n: int) -> bool {
    &&& pos.no_duplicates()
    &&& forall|p: int| 0 <= p < pos.len() ==> #[trigger] pos[p] < n
}

/// The candidates at `pos` appear in rank order (equal pairs may sit in either order).
pub open spec fn ranked(cands: Seq<(u32, u64)>, pos: Seq<usize>, high_first: bool) -> bool {
    forall|i: int, j: int|
        0 <= i < j < pos.len() ==> !outranks(
            cands[#[trigger] pos[j] as int],
            cands[#[trigger] pos[i] as int],
            high_first,
        )
}

/// `pos` keeps the best `k` of `cands`: `min(k, n)` distinct positions, and
/// no candidate left out has a larger key than any candidate kept.
pub open spec fn is_top_k(cands: Seq<(u32, u64)>, pos: Seq<usize>, k: int) -> bool {
    &&& distinct_positions(pos, cands.len() as int)
    &&& pos.len() == (if k < cands.len() { k } else { cands.len() as int })
    &&& forall|p: int, j: int|
        0 <= p < pos.len() && 0 <= j < cands.len() && !pos.contains(j as usize) ==> #[trigger] cands[j].0
            <= #[trigger] cands[pos[p] as int].0
}

/// Position (within `pos`) of the lowest-ranked candidate among those at `pos`.
fn lowest_ranked(cands: &[(u32, u64)], pos: &Vec<usize>, high_first: bool) -> (e: usize)
    requires
        pos.len() > 0,
        forall|p: int| 0 <= p < pos.len() ==> #[trigger] pos[p] < cands.len(),
    ensures
        e < pos.len(),
        forall|q: int|
            0 <= q < pos.len() ==> !outranks(
                cands@[pos[e as int] as int],
                #[trigger] cands@[pos[q] as int],
                high_first,
            ),
{
    let mut e: usize = 0;
    let mut q: usize = 1;
    while q < pos.len()
        invariant
            e < q <= pos.len(),
            forall|p: int| 0 <= p < pos.len() ==> #[trigger] pos[p] < cands.len(),
            forall|t: int|
                0 <= t < q ==> !outranks(
                    cands@[pos[e as int] as int],
                    #[trigger] cands@[pos[t] as int],
                    high_first,
                ),
        decreases pos.len() - q,
    {
        let a = cands[pos[e]];
        let b = cands[pos[q]];
        let b_below = b.0 < a.0 || (b.0 == a.0 && (if high_first { b.1 < a.1 } else { b.1 > a.1 }));
        if b_below {
            e = q;
        }
        q = q + 1;
    }
    e
}

/// Keeps the best `k` candidates, scanning them in order: while fewer than
/// `k` are kept each is kept; afterwards one is admitted only when its key is
/// strictly larger than that of the lowest-ranked kept candidate (ranked by
/// key, then by item per `high_first`), which it replaces.
pub fn select_top_k(cands: &[(u32, u64)], k: usize, high_first: bool) -> (pos: Vec<usize>)
    ensures
        is_top_k(cands@, pos@, k as int),
{
    let mut sel: Vec<usize> = Vec::new();
    let mut j: usize = 0;
    while j < cands.len()
        invariant
            j <= cands.len(),
            sel.len() == (if k < j { k as int } else { j as int }),
            sel@.no_duplicates(),
            forall|p: int| 0 <= p < sel.len() ==> #[trigger] sel[p] < j,
            j <= k ==> forall|p: int| 0 <= p < sel.len() ==> #[trigger] sel[p] == p,
            forall|p: int, t: int|
                0 <= p < sel.len() && 0 <= t < j && !sel@.contains(t as usize) ==> #[trigger] cands@[t].0
                    <= #[trigger] cands@[sel[p] as int].0,
        decreases cands.len() - j,
    {
        if sel.len() < k {
            let ghost before = sel@;
            sel.push(j);
            proof {
                // while filling, the kept positions are exactly 0..=j: none is left out
                assert forall|p: int, t: int|
                    0 <= p < sel.len() && 0 <= t < j + 1 && !sel@.contains(t as usize) implies #[trigger] cands@[t].0
                    <= #[trigger] cands@[sel[p] as int].0 by {
                    assert(sel@[t] == t as usize);
                }
                assert forall|a: int, b: int| 0 <= a < b < sel.len() implies sel[a] != sel[b] by {
                    if b == sel.len() - 1 {
                        assert(before[a] < j);
                    } else {
                        assert(before[a] != before[b]);
                    }
                }
            }
        } else if k > 0 {
            let e = lowest_ranked(cands, &sel, high_first);
            let low = cands[sel[e]];
            if cands[j].0 > low.0 {
                let ghost before = sel@;
                let ghost evicted = sel@[e as int];
                sel.set(e, j);
                proof {
                    assert forall|a: int, b: int| 0 <= a < b < sel.len() implies sel[a] != sel[b] by {
                        if a == e {
                            assert(before[b] < j);
                        } else if b == e {
                            assert(before[a] < j);
                        } else {
                            assert(before[a] != before[b]);
                        }
                    }
                    assert forall|p: int, t: int|
                        0 <= p < sel.len() && 0 <= t < j + 1 && !sel@.contains(t as usize) implies #[trigger] cands@[t].0
                        <= #[trigger] cands@[sel[p] as int].0 by {
                        assert(sel[e as int] == j);
                        assert(t != j);
                        // every kept candidate has a key at least that of the evicted one
                        if p != e {
                            assert(sel[p] == before[p]);
                            assert(!outranks(cands@[evicted as int], cands@[before[p] as int], high_first));
                        }
                        if t as usize == evicted {
                        } else {
                            assert(!before.contains(t as usize)) by {
                                if before.contains(t as usize) {
                                    let w = choose|w: int| 0 <= w < before.len() && before[w] == t as usize;
                                    assert(w != e);
                                    assert(sel@[w] == t as usize);
                                }
                            }
                            assert(cands@[t].0 <= cands@[evicted as int].0);
                        }
                    }
                }
            } else {
                proof {
                    assert forall|p: int, t: int|
                        0 <= p < sel.len() && 0 <= t < j + 1 && !sel@.contains(t as usize) implies #[trigger] cands@[t].0
                        <= #[trigger] cands@[sel[p] as int].0 by {
                        if t == j {
                            assert(!outranks(low, cands@[sel[p] as int], high_first));
                        }
                    }
                }
            }
        }
        j = j + 1;
    }
    sel
}

/// Orders the candidates at `pos` by rank: larger key first, equal keys by
/// item (larger first when `high_first`).
pub fn order_by_rank(cands: &[(u32, u64)], pos: &Vec<usize>, high_first: bool) -> (out: Vec<usize>)
    requires
        distinct_positions(pos@, cands.len() as int),
    ensures
        distinct_positions(out@, cands.len() as int),
        out.len() == pos.len(),
        out@.to_set() == pos@.to_set(),
        ranked(cands@, out@, high_first),
{
    let mut rest: Vec<usize> = pos.clone();
    let mut out: Vec<usize> = Vec::new();
    proof {
        assert(out@ + rest@ == pos@);
    }
    while rest.len() > 0
        invariant
            distinct_positions(pos@, cands.len() as int),
            (out@ + rest@).to_set() == pos@.to_set(),
            (out@ + rest@).no_duplicates(),
            out.len() + rest.len() == pos.len(),
            forall|p: int| 0 <= p < rest.len() ==> #[trigger] rest[p] < cands.len(),
            forall|p: int| 0 <= p < out.len() ==> #[trigger] out[p] < cands.len(),
            ranked(cands@, out@, high_first),
            forall|i: int, r: int|
                0 <= i < out.len() && 0 <= r < rest.len() ==> !outranks(
                    cands@[#[trigger] rest[r] as int],
                    cands@[#[trigger] out[i] as int],
                    high_first,
                ),
        decreases rest.len(),
    {
        // the best remaining candidate: one that nothing remaining outranks
        let mut b: usize = 0;
        let mut q: usize = 1;
        while q < rest.len()
            invariant
                b < q <= rest.len(),
                forall|p: int| 0 <= p < rest.len() ==> #[trigger] rest[p] < cands.len(),
                forall|t: int|
                    0 <= t < q ==> !outranks(
                        #[trigger] cands@[rest[t] as int],
                        cands@[rest[b as int] as int],
                        high_first,
                    ),
            decreases rest.len() - q,
        {
            let x = cands[rest[b]];
            let y = cands[rest[q]];
            let y_above = y.0 > x.0 || (y.0 == x.0 && (if high_first { y.1 > x.1 } else { y.1 < x.1 }));
            if y_above {
                b = q;
            }
            q = q + 1;
        }
        let ghost old_out = out@;
        let ghost old_rest = rest@;
        let chosen = rest.remove(b);
        out.push(chosen);
        proof {
            assert(old_rest == old_rest.subrange(0, b as int) + seq![chosen] + old_rest.subrange(b + 1, old_rest.len() as int));
            assert(rest@ == old_rest.subrange(0, b as int) + old_rest.subrange(b + 1, old_rest.len() as int));
            assert forall|x: usize| (out@ + rest@).contains(x) <==> (old_out + old_rest).contains(x) by {
                if (old_out + old_rest).contains(x) {
                    let w = choose|w: int| 0 <= w < (old_out + old_rest).len() && (old_out + old_rest)[w] == x;
                    if w < old_out.len() {
                        assert((out@ + rest@)[w] == x);
                    } else if w - old_out.len() < b {
                        assert((out@ + rest@)[w + 1] == x);
                    } else if w - old_out.len() == b {
                        assert((out@ + rest@)[old_out.len() as int] == x);
                    } else {
                        assert((out@ + rest@)[w] == x);
                    }
                }
                if (out@ + rest@).contains(x) {
                    let w = choose|w: int| 0 <= w < (out@ + rest@).len() && (out@ + rest@)[w] == x;
                    if w < old_out.len() {
                        assert((old_out + old_rest)[w] == x);
                    } else if w == old_out.len() {
                        assert((old_out + old_rest)[old_out.len() + b] == x);
                    } else if w - old_out.len() - 1 < b {
                        assert((old_out + old_rest)[w - 1] == x);
                    } else {
                        assert((old_out + old_rest)[w] == x);
                    }
                }
            }
            assert((out@ + rest@).to_set() =~= (old_out + old_rest).to_set());
            let all = out@ + rest@;
            let old_all = old_out + old_rest;
            // position map from the new arrangement to the old one
            assert forall|a: int, c: int| 0 <= a < c < all.len() implies all[a] != all[c] by {
                let fa = if a < old_out.len() { a } else if a == old_out.len() { old_out.len() + b } else if a - old_out.len() - 1 < b { a - 1 } else { a };
                let fc = if c < old_out.len() { c } else if c == old_out.len() { old_out.len() + b } else if c - old_out.len() - 1 < b { c - 1 } else { c };
                assert(all[a] == old_all[fa]);
                assert(all[c] == old_all[fc]);
                assert(fa != fc);
            }
            assert forall|i: int, j: int| 0 <= i < j < out.len() implies !outranks(
                cands@[#[trigger] out@[j] as int],
                cands@[#[trigger] out@[i] as int],
                high_first,
            ) by {
                if j == out.len() - 1 {
                    assert(out@[j] == old_rest[b as int]);
                    assert(old_out[i] == out@[i]);
                } else {
                    assert(old_out[i] == out@[i]);
                    assert(old_out[j] == out@[j]);
                }
            }
            assert forall|i: int, r: int|
                0 <= i < out.len() && 0 <= r < rest.len() implies !outranks(
                    cands@[#[trigger] rest[r] as int],
                    cands@[#[trigger] out[i] as int],
                    high_first,
                ) by {
                let fr = if r < b { r } else { r + 1 };
                assert(rest[r] == old_rest[fr]);
                if i == out.len() - 1 {
                    assert(out[i] == old_rest[b as int]);
                } else {
                    assert(out[i] == old_out[i]);
                }
            }
        }
    }
    proof {
        assert(rest@ =~= Seq::<usize>::empty());
        assert(out@ + rest@ =~= out@);
    }
    out
}

} // verus!
