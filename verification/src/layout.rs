//! The row layout of an IVF index: rows are grouped by list, lists in
//! increasing order, rows of a list in increasing order, and `offsets[c]`
//! tells where list `c` begins.
use vstd::prelude::*;

verus! {

/// Number of rows before `upto` assigned to list `c`.
pub open spec fn count_in(assign: Seq<usize>, c: int, upto: int) -> int
    decreases upto,
{
    if upto <= 0 {
        0
    } else {
        count_in(assign, c, upto - 1) + if assign[upto - 1] == c { 1int } else { 0int }
    }
}

/// Where list `c` begins: the number of rows assigned to lists before `c`.
pub open spec fn list_start(assign: Seq<usize>, c: int) -> int
    decreases c,
{
    if c <= 0 {
        0
    } else {
        list_start(assign, c - 1) + count_in(assign, c - 1, assign.len() as int)
    }
}

/// The slot of row `i`: after the rows of earlier lists and the earlier rows of its own list.
pub open spec fn slot_of(assign: Seq<usize>, i: int) -> int {
    list_start(assign, assign[i] as int) + count_in(assign, assign[i] as int, i)
}

/// Every row is assigned to one of the `n_list` lists.
pub open spec fn assigned_within(assign: Seq<usize>, n_list: int) -> bool {
    forall|i: int| 0 <= i < assign.len() ==> (#[trigger] assign[i] as int) < n_list
}

proof fn lemma_count_monotone(assign: Seq<usize>, c: int, a: int, b: int)
    requires
        0 <= a <= b <= assign.len(),
    ensures
        0 <= count_in(assign, c, a) <= count_in(assign, c, b),
        count_in(assign, c, b) - count_in(assign, c, a) <= b - a,
    decreases b - a,
{
    if a < b {
        lemma_count_monotone(assign, c, a, b - 1);
    } else {
        lemma_count_nonneg(assign, c, a);
    }
}

proof fn lemma_count_nonneg(assign: Seq<usize>, c: int, a: int)
    requires
        0 <= a <= assign.len(),
    ensures
        0 <= count_in(assign, c, a) <= a,
    decreases a,
{
    if a > 0 {
        lemma_count_nonneg(assign, c, a - 1);
    }
}

/// Row `t` of list `c` comes before the end of that list.
proof fn lemma_count_strict(assign: Seq<usize>, c: int, t: int, b: int)
    requires
        0 <= t < b <= assign.len(),
        assign[t] == c,
    ensures
        count_in(assign, c, t) < count_in(assign, c, b),
{
    lemma_count_monotone(assign, c, t + 1, b);
}

/// Summing the list sizes over the first `k` lists (all rows before `upto`).
pub open spec fn sum_counts(assign: Seq<usize>, k: int, upto: int) -> int
    decreases k,
{
    if k <= 0 {
        0
    } else {
        sum_counts(assign, k - 1, upto) + count_in(assign, k - 1, upto)
    }
}

proof fn lemma_sum_counts_step(assign: Seq<usize>, k: int, upto: int)
    requires
        0 <= upto < assign.len(),
        k >= 0,
    ensures
        sum_counts(assign, k, upto + 1) == sum_counts(assign, k, upto) + if (assign[upto] as int) < k {
            1int
        } else {
            0int
        },
    decreases k,
{
    if k > 0 {
        lemma_sum_counts_step(assign, k - 1, upto);
    }
}

proof fn lemma_sum_counts_total(assign: Seq<usize>, n_list: int, upto: int)
    requires
        assigned_within(assign, n_list),
        0 <= upto <= assign.len(),
        n_list >= 0,
    ensures
        sum_counts(assign, n_list, upto) == upto,
    decreases upto,
{
    if upto == 0 {
        lemma_sum_counts_zero(assign, n_list);
    } else {
        lemma_sum_counts_total(assign, n_list, upto - 1);
        lemma_sum_counts_step(assign, n_list, upto - 1);
    }
}

proof fn lemma_sum_counts_zero(assign: Seq<usize>, k: int)
    ensures
        sum_counts(assign, k, 0) == 0,
    decreases k,
{
    if k > 0 {
        lemma_sum_counts_zero(assign, k - 1);
    }
}

proof fn lemma_list_start_is_sum(assign: Seq<usize>, c: int)
    requires
        c >= 0,
    ensures
        list_start(assign, c) == sum_counts(assign, c, assign.len() as int),
    decreases c,
{
    if c > 0 {
        lemma_list_start_is_sum(assign, c - 1);
    }
}

proof fn lemma_list_start_monotone(assign: Seq<usize>, a: int, b: int)
    requires
        0 <= a <= b,
    ensures
        list_start(assign, a) <= list_start(assign, b),
        list_start(assign, a) >= 0,
    decreases b - a,
{
    if a < b {
        lemma_list_start_monotone(assign, a, b - 1);
        lemma_count_nonneg(assign, b - 1, assign.len() as int);
    } else {
        lemma_list_start_nonneg(assign, a);
    }
}

proof fn lemma_list_start_nonneg(assign: Seq<usize>, a: int)
    requires
        a >= 0,
    ensures
        list_start(assign, a) >= 0,
    decreases a,
{
    if a > 0 {
        lemma_list_start_nonneg(assign, a - 1);
        lemma_count_nonneg(assign, a - 1, assign.len() as int);
    }
}

/// Each row's slot lies within its list and within the table.
proof fn lemma_slot_bounds(assign: Seq<usize>, n_list: int, i: int)
    requires
        assigned_within(assign, n_list),
        0 <= i < assign.len(),
    ensures
        list_start(assign, assign[i] as int) <= slot_of(assign, i) < list_start(assign, assign[i] + 1),
        list_start(assign, assign[i] + 1) <= list_start(assign, n_list),
        list_start(assign, n_list) == assign.len(),
        0 <= slot_of(assign, i) < assign.len(),
{
    let c = assign[i] as int;
    lemma_count_strict(assign, c, i, assign.len() as int);
    lemma_count_nonneg(assign, c, i);
    lemma_list_start_monotone(assign, c + 1, n_list);
    lemma_list_start_monotone(assign, 0, c);
    lemma_list_start_is_sum(assign, n_list);
    lemma_sum_counts_total(assign, n_list, assign.len() as int);
}

/// Different rows go to different slots.
proof fn lemma_slots_distinct(assign: Seq<usize>, n_list: int, i: int, j: int)
    requires
        assigned_within(assign, n_list),
        0 <= i < j < assign.len(),
    ensures
        slot_of(assign, i) != slot_of(assign, j),
{
    lemma_slot_bounds(assign, n_list, i);
    lemma_slot_bounds(assign, n_list, j);
    let ci = assign[i] as int;
    let cj = assign[j] as int;
    if ci < cj {
        lemma_list_start_monotone(assign, ci + 1, cj);
    } else if cj < ci {
        lemma_list_start_monotone(assign, cj + 1, ci);
    } else {
        lemma_count_monotone(assign, ci, i + 1, j);
    }
}

/// The layout of an IVF index.
pub struct ListLayout {
    /// `offsets[c]` is where list `c` begins; `offsets[n_list]` is the row count.
    pub offsets: Vec<i32>,
    /// `order[p]` is the row stored at slot `p`.
    pub order: Vec<usize>,
}

/// Groups `n` rows by their list: list `c` begins at slot `list_start(c)` and
/// holds its rows in increasing order; offsets are stored as `i32`.
pub fn list_layout(assign: &[usize], n_list: usize) -> (l: ListLayout)
    requires
        assigned_within(assign@, n_list as int),
    ensures
        l.offsets.len() == n_list + 1,
        forall|c: int| 0 <= c <= n_list ==> #[trigger] l.offsets@[c] == list_start(assign@, c) as i32,
        l.order.len() == assign.len(),
        forall|i: int| 0 <= i < assign.len() ==> l.order@[#[trigger] slot_of(assign@, i)] == i,
        list_start(assign@, n_list as int) == assign.len(),
        l.offsets@[n_list as int] == assign.len() as i32,
        forall|c1: int, c2: int|
            0 <= c1 <= c2 <= n_list ==> 0 <= #[trigger] list_start(assign@, c1) <= #[trigger] list_start(
                assign@,
                c2,
            ) <= assign.len(),
        assign.len() <= i32::MAX ==> forall|c1: int, c2: int|
            0 <= c1 <= c2 <= n_list ==> {
                &&& #[trigger] l.offsets@[c1] as int == list_start(assign@, c1)
                &&& #[trigger] l.offsets@[c2] as int == list_start(assign@, c2)
                &&& l.offsets@[c1] <= l.offsets@[c2]
            },
{
    let n = assign.len();
    let mut counts: Vec<usize> = Vec::new();
    let mut c: usize = 0;
    while c < n_list
        invariant
            c <= n_list,
            counts.len() == c,
            forall|t: int| 0 <= t < c ==> #[trigger] counts@[t] == 0,
        decreases n_list - c,
    {
        counts.push(0);
        c = c + 1;
    }
    let mut i: usize = 0;
    while i < n
        invariant
            i <= n,
            n == assign.len(),
            assigned_within(assign@, n_list as int),
            counts.len() == n_list,
            forall|t: int| 0 <= t < n_list ==> #[trigger] counts@[t] == count_in(assign@, t, i as int),
        decreases n - i,
    {
        let a = assign[i];
        proof {
            lemma_count_nonneg(assign@, a as int, i as int);
        }
        let v = counts[a];
        counts.set(a, v + 1);
        i = i + 1;
    }
    let mut offsets: Vec<i32> = Vec::new();
    let mut starts: Vec<usize> = Vec::new();
    let mut cur: usize = 0;
    let mut c: usize = 0;
    proof {
        lemma_list_start_is_sum(assign@, n_list as int);
        lemma_sum_counts_total(assign@, n_list as int, n as int);
    }
    while c < n_list
        invariant
            c <= n_list,
            n == assign.len(),
            counts.len() == n_list,
            assigned_within(assign@, n_list as int),
            forall|t: int| 0 <= t < n_list ==> #[trigger] counts@[t] == count_in(assign@, t, n as int),
            list_start(assign@, n_list as int) == n,
            cur == list_start(assign@, c as int),
            offsets.len() == c,
            starts.len() == c,
            forall|t: int| 0 <= t < c ==> #[trigger] offsets@[t] == list_start(assign@, t) as i32,
            forall|t: int| 0 <= t < c ==> #[trigger] starts@[t] == list_start(assign@, t),
        decreases n_list - c,
    {
        proof {
            lemma_list_start_monotone(assign@, c + 1, n_list as int);
        }
        offsets.push(cur as i32);
        starts.push(cur);
        cur = cur + counts[c];
        c = c + 1;
    }
    offsets.push(cur as i32);
    let mut order: Vec<usize> = Vec::new();
    let mut t: usize = 0;
    while t < n
        invariant
            t <= n,
            order.len() == t,
        decreases n - t,
    {
        order.push(0);
        t = t + 1;
    }
    let mut cursor = starts;
    let mut i: usize = 0;
    while i < n
        invariant
            i <= n,
            n == assign.len(),
            order.len() == n,
            cursor.len() == n_list,
            assigned_within(assign@, n_list as int),
            forall|c: int|
                0 <= c < n_list ==> #[trigger] cursor@[c] == list_start(assign@, c) + count_in(
                    assign@,
                    c,
                    i as int,
                ),
            forall|j: int| 0 <= j < i ==> order@[#[trigger] slot_of(assign@, j)] == j,
        decreases n - i,
    {
        let a = assign[i];
        proof {
            lemma_slot_bounds(assign@, n_list as int, i as int);
        }
        let p = cursor[a];
        assert(p as int == slot_of(assign@, i as int));
        let ghost before = order@;
        order.set(p, i);
        cursor.set(a, p + 1);
        proof {
            assert forall|j: int| 0 <= j < i + 1 implies order@[#[trigger] slot_of(assign@, j)] == j by {
                if j < i {
                    lemma_slots_distinct(assign@, n_list as int, j, i as int);
                    lemma_slot_bounds(assign@, n_list as int, j);
                    assert(order@[slot_of(assign@, j)] == before[slot_of(assign@, j)]);
                }
            }
        }
        i = i + 1;
    }
    proof {
        assert forall|c1: int, c2: int| 0 <= c1 <= c2 <= n_list implies 0 <= #[trigger] list_start(
            assign@,
            c1,
        ) <= #[trigger] list_start(assign@, c2) <= assign.len() by {
            lemma_list_start_monotone(assign@, c1, c2);
            lemma_list_start_monotone(assign@, c2, n_list as int);
        }
    }
    ListLayout { offsets, order }
}

/// Every slot of the layout holds a distinct row: the layout is a permutation of the rows.
pub proof fn lemma_layout_is_permutation(assign: Seq<usize>, n_list: int, order: Seq<usize>)
    requires
        assigned_within(assign, n_list),
        order.len() == assign.len(),
        forall|i: int| 0 <= i < assign.len() ==> order[#[trigger] slot_of(assign, i)] == i,
    ensures
        forall|p: int| 0 <= p < order.len() ==> (#[trigger] order[p] as int) < order.len() && slot_of(
            assign,
            order[p] as int,
        ) == p,
        order.no_duplicates(),
{
    // slots are an injection from rows into [0, n), hence onto
    let n = assign.len() as int;
    let f = |i: int| slot_of(assign, i);
    assert forall|i: int| 0 <= i < n implies 0 <= #[trigger] f(i) < n by {
        lemma_slot_bounds(assign, n_list, i);
    }
    assert forall|i: int, j: int| 0 <= i < n && 0 <= j < n && i != j implies #[trigger] f(i) != #[trigger] f(j) by {
        if i < j {
            lemma_slots_distinct(assign, n_list, i, j);
        } else {
            lemma_slots_distinct(assign, n_list, j, i);
        }
    }
    lemma_injection_onto(f, n);
    assert forall|p: int| 0 <= p < order.len() implies (#[trigger] order[p] as int) < order.len() && slot_of(
        assign,
        order[p] as int,
    ) == p by {
        assert(reached(f, n, p));
        let i = choose|i: int| 0 <= i < n && #[trigger] f(i) == p;
        assert(order[slot_of(assign, i)] == i);
    }
    assert forall|a: int, b: int| 0 <= a < b < order.len() implies order[a] != order[b] by {
        assert(slot_of(assign, order[a] as int) == a);
        assert(slot_of(assign, order[b] as int) == b);
    }
}

/// Some point of `[0, n)` maps to `p`.
pub open spec fn reached(f: spec_fn(int) -> int, n: int, p: int) -> bool {
    exists|i: int| 0 <= i < n && #[trigger] f(i) == p
}

/// An injection from `[0, n)` into `[0, n)` reaches every point.
proof fn lemma_injection_onto(f: spec_fn(int) -> int, n: int)
    requires
        n >= 0,
        forall|i: int| 0 <= i < n ==> 0 <= #[trigger] f(i) < n,
        forall|i: int, j: int| 0 <= i < n && 0 <= j < n && i != j ==> #[trigger] f(i) != #[trigger] f(j),
    ensures
        forall|p: int| 0 <= p < n ==> #[trigger] reached(f, n, p),
    decreases n,
{
    if n > 0 {
        // the point that n - 1 maps to is swapped out of the way
        let q = f(n - 1);
        let g = |i: int| if f(i) == n - 1 { q } else { f(i) };
        assert forall|i: int| 0 <= i < n - 1 implies 0 <= #[trigger] g(i) < n - 1 by {
            if f(i) == n - 1 {
                assert(f(i) != f(n - 1));
            }
        }
        assert forall|i: int, j: int| 0 <= i < n - 1 && 0 <= j < n - 1 && i != j implies #[trigger] g(i)
            != #[trigger] g(j) by {
            if f(i) == n - 1 {
                assert(f(j) != q) by { assert(f(j) != f(n - 1)); }
            } else if f(j) == n - 1 {
                assert(f(i) != q) by { assert(f(i) != f(n - 1)); }
            }
        }
        lemma_injection_onto(g, n - 1);
        assert forall|p: int| 0 <= p < n implies #[trigger] reached(f, n, p) by {
            if p == n - 1 {
                if q == n - 1 {
                    assert(f(n - 1) == p);
                } else {
                    assert(reached(g, n - 1, q));
                    let i = choose|i: int| 0 <= i < n - 1 && #[trigger] g(i) == q;
                    assert(f(i) == n - 1);
                }
            } else if p == q {
                assert(f(n - 1) == p);
            } else {
                assert(reached(g, n - 1, p));
                let i = choose|i: int| 0 <= i < n - 1 && #[trigger] g(i) == p;
                assert(f(i) == p);
            }
        }
    }
}

/// The stored id at each slot: `ids_by_row[order[p]]`.
pub fn ids_in_slots(order: &[usize], ids_by_row: &[i64]) -> (ids: Vec<i64>)
    requires
        forall|p: int| 0 <= p < order.len() ==> (#[trigger] order@[p]) < ids_by_row.len(),
    ensures
        ids.len() == order.len(),
        forall|p: int| 0 <= p < order.len() ==> #[trigger] ids@[p] == ids_by_row@[order@[p] as int],
{
    let mut ids: Vec<i64> = Vec::new();
    let mut p: usize = 0;
    while p < order.len()
        invariant
            p <= order.len(),
            forall|q: int| 0 <= q < order.len() ==> (#[trigger] order@[q]) < ids_by_row.len(),
            ids.len() == p,
            forall|q: int| 0 <= q < p ==> #[trigger] ids@[q] == ids_by_row@[order@[q] as int],
        decreases order.len() - p,
    {
        ids.push(ids_by_row[order[p]]);
        p = p + 1;
    }
    ids
}

} // verus!
