//! Banker's-algorithm safety test over a resource class.
use vstd::prelude::*;

verus! {

/// The rows of a matrix, each as a sequence.
pub open spec fn rows(m: &Vec<Vec<usize>>) -> Seq<Seq<usize>> {
    m@.map_values(|v: Vec<usize>| v@)
}

/// Resource matrices rows by thread, columns by resource: every row has `m` entries.
pub open spec fn rect(mat: Seq<Seq<usize>>, n: int, m: int) -> bool {
    &&& mat.len() == n
    &&& forall|i: int| 0 <= i < n ==> (#[trigger] mat[i]).len() == m
}

/// Units of resource `r` held by the threads listed in `s`.
pub open spec fn held(alloc: Seq<Seq<usize>>, s: Seq<int>, r: int) -> int
    decreases s.len(),
{
    if s.len() == 0 {
        0
    } else {
        held(alloc, s.drop_last(), r) + alloc[s.last()][r]
    }
}

/// Thread `t` can run to completion once the threads in `done` have released
/// what they hold.
pub open spec fn can_finish(
    avail: Seq<usize>,
    alloc: Seq<Seq<usize>>,
    need: Seq<Seq<usize>>,
    done: Seq<int>,
    t: int,
) -> bool {
    forall|r: int| 0 <= r < avail.len() ==> #[trigger] need[t][r] <= avail[r] + held(alloc, done, r)
}

/// `order` lists each of the `need.len()` threads once, and each thread in it
/// can finish with what is free plus what the threads before it release.
pub open spec fn safe_order(
    avail: Seq<usize>,
    alloc: Seq<Seq<usize>>,
    need: Seq<Seq<usize>>,
    order: Seq<int>,
) -> bool {
    &&& order.no_duplicates()
    &&& forall|k: int| 0 <= k < order.len() ==> 0 <= #[trigger] order[k] < need.len()
    &&& forall|t: int| 0 <= t < need.len() ==> #[trigger] order.contains(t)
    &&& forall|k: int|
        0 <= k < order.len() ==> #[trigger] can_finish(avail, alloc, need, order.take(k), order[k])
}

/// The state is safe: some order lets every thread finish.
pub open spec fn is_safe(avail: Seq<usize>, alloc: Seq<Seq<usize>>, need: Seq<Seq<usize>>) -> bool {
    exists|order: Seq<int>| safe_order(avail, alloc, need, order)
}

/// What is free plus all that is held fits in a machine word, for every resource.
pub open spec fn totals_fit(avail: Seq<usize>, alloc: Seq<Seq<usize>>) -> bool {
    forall|r: int|
        0 <= r < avail.len() ==> avail[r] + held(alloc, Seq::new(alloc.len(), |i: int| i), r)
            <= usize::MAX
}

proof fn lemma_held_nonneg(alloc: Seq<Seq<usize>>, s: Seq<int>, r: int)
    ensures
        held(alloc, s, r) >= 0,
    decreases s.len(),
{
    if s.len() > 0 {
        lemma_held_nonneg(alloc, s.drop_last(), r);
    }
}

proof fn lemma_held_remove(alloc: Seq<Seq<usize>>, s: Seq<int>, idx: int, r: int)
    requires
        0 <= idx < s.len(),
    ensures
        held(alloc, s, r) == held(alloc, s.remove(idx), r) + alloc[s[idx]][r],
    decreases s.len(),
{
    if idx == s.len() - 1 {
        assert(s.remove(idx) =~= s.drop_last());
    } else {
        lemma_held_remove(alloc, s.drop_last(), idx, r);
        assert(s.remove(idx).drop_last() =~= s.drop_last().remove(idx));
        assert(s.remove(idx).last() == s.last());
    }
}

/// What a set of distinct threads holds is at most what a larger set holds.
proof fn lemma_held_subset(alloc: Seq<Seq<usize>>, a: Seq<int>, b: Seq<int>, r: int)
    requires
        a.no_duplicates(),
        b.no_duplicates(),
        forall|k: int| 0 <= k < a.len() ==> b.contains(#[trigger] a[k]),
    ensures
        held(alloc, a, r) <= held(alloc, b, r),
    decreases a.len(),
{
    if a.len() == 0 {
        lemma_held_nonneg(alloc, b, r);
    } else {
        let x = a.last();
        let idx = b.index_of(x);
        let b2 = b.remove(idx);
        let a2 = a.drop_last();
        assert forall|k: int| 0 <= k < a2.len() implies b2.contains(#[trigger] a2[k]) by {
            assert(b.contains(a[k]));
            let j = b.index_of(a[k]);
            assert(a[k] != x);
            if j < idx {
                assert(b2[j] == a2[k]);
            } else {
                assert(j != idx);
                assert(b2[j - 1] == a2[k]);
            }
        }
        assert(b2.no_duplicates()) by {
            assert forall|i: int, j: int| 0 <= i < j < b2.len() implies b2[i] != b2[j] by {
                let bi = if i < idx { i } else { i + 1 };
                let bj = if j < idx { j } else { j + 1 };
                assert(b2[i] == b[bi]);
                assert(b2[j] == b[bj]);
            }
        }
        lemma_held_subset(alloc, a2, b2, r);
        lemma_held_remove(alloc, b, idx, r);
    }
}

proof fn lemma_held_push(alloc: Seq<Seq<usize>>, s: Seq<int>, x: int, r: int)
    ensures
        held(alloc, s.push(x), r) == held(alloc, s, r) + alloc[x][r],
{
    assert(s.push(x).drop_last() =~= s);
}

/// Index of the first thread of `o` that is not in `fin`, given that one exists.
proof fn first_outside(o: Seq<int>, fin: Seq<int>, k: int) -> (idx: int)
    requires
        0 <= k <= o.len(),
        forall|j: int| 0 <= j < k ==> fin.contains(#[trigger] o[j]),
        exists|j: int| k <= j < o.len() && !fin.contains(#[trigger] o[j]),
    ensures
        k <= idx < o.len(),
        !fin.contains(o[idx]),
        forall|j: int| 0 <= j < idx ==> fin.contains(#[trigger] o[j]),
    decreases o.len() - k,
{
    if !fin.contains(o[k]) {
        k
    } else {
        first_outside(o, fin, k + 1)
    }
}

/// When the threads outside `fin` each lack some resource beyond
/// `avail + held(fin)`, no order lets every thread finish.
proof fn lemma_stuck_is_unsafe(
    avail: Seq<usize>,
    alloc: Seq<Seq<usize>>,
    need: Seq<Seq<usize>>,
    fin: Seq<int>,
)
    requires
        fin.no_duplicates(),
        exists|t: int| 0 <= t < need.len() && !fin.contains(t),
        forall|t: int|
            0 <= t < need.len() && !fin.contains(t) ==> !#[trigger] can_finish(
                avail,
                alloc,
                need,
                fin,
                t,
            ),
    ensures
        !is_safe(avail, alloc, need),
{
    if is_safe(avail, alloc, need) {
        let o = choose|o: Seq<int>| safe_order(avail, alloc, need, o);
        let t = choose|t: int| 0 <= t < need.len() && !fin.contains(t);
        assert(o.contains(t));
        let jt = o.index_of(t);
        assert(!fin.contains(o[jt]));
        let idx = first_outside(o, fin, 0);
        let pre = o.take(idx);
        assert(can_finish(avail, alloc, need, o.take(idx), o[idx]));
        assert(pre.no_duplicates());
        assert forall|r: int| 0 <= r < avail.len() implies held(alloc, pre, r) <= held(
            alloc,
            fin,
            r,
        ) by {
            assert forall|k: int| 0 <= k < pre.len() implies fin.contains(#[trigger] pre[k]) by {
                assert(pre[k] == o[k]);
            }
            lemma_held_subset(alloc, pre, fin, r);
        }
        assert(can_finish(avail, alloc, need, fin, o[idx]));
    }
}

/// A list of distinct threads below `n` has at most `n` entries, and holds
/// every thread exactly when it has `n`.
proof fn lemma_distinct_bound(order: Seq<int>, n: int)
    requires
        0 <= n,
        order.no_duplicates(),
        forall|k: int| 0 <= k < order.len() ==> 0 <= #[trigger] order[k] < n,
    ensures
        order.len() <= n,
        order.len() == n ==> forall|t: int| 0 <= t < n ==> #[trigger] order.contains(t),
        order.len() < n ==> exists|t: int| 0 <= t < n && !order.contains(t),
{
    let s = order.to_set();
    let range = Set::new(|t: int| 0 <= t < n);
    order.unique_seq_to_set();
    vstd::set_lib::lemma_int_range(0, n);
    assert(range == vstd::set_lib::set_int_range(0, n));
    assert(s.subset_of(range)) by {
        assert forall|x: int| s.contains(x) implies range.contains(x) by {
            let k = order.index_of(x);
        }
    }
    vstd::set_lib::lemma_len_subset(s, range);
    if order.len() == n {
        assert forall|t: int| 0 <= t < n implies #[trigger] order.contains(t) by {
            if !order.contains(t) {
                assert(s.subset_of(range.remove(t)));
                vstd::set_lib::lemma_len_subset(s, range.remove(t));
            }
        }
    }
    if order.len() < n {
        if forall|t: int| 0 <= t < n ==> order.contains(t) {
            assert(range.subset_of(s));
            vstd::set_lib::lemma_len_subset(range, s);
        }
    }
}

/// Whether `need[t][j] <= work[j]` for every resource `j`.
fn fits(need_row: &Vec<usize>, work: &Vec<usize>) -> (r: bool)
    requires
        need_row@.len() == work@.len(),
    ensures
        r == forall|j: int| 0 <= j < work@.len() ==> need_row@[j] <= work@[j],
{
    let mut j: usize = 0;
    while j < work.len()
        invariant
            j <= work@.len(),
            need_row@.len() == work@.len(),
            forall|q: int| 0 <= q < j ==> need_row@[q] <= work@[q],
        decreases work@.len() - j,
    {
        if need_row[j] > work[j] {
            return false;
        }
        j = j + 1;
    }
    true
}

/// The safety test. Starting from `work = available`, it repeatedly lets a
/// thread whose need fits in `work` finish and return its allocation, until
/// every thread has finished (safe) or none can (unsafe). Returns whether the
/// state is unsafe, which is when no order lets every thread finish.
pub fn deadlock_detected(
    available: &Vec<usize>,
    allocation: &Vec<Vec<usize>>,
    need: &Vec<Vec<usize>>,
) -> (r: bool)
    requires
        rect(rows(allocation), allocation@.len() as int, available@.len() as int),
        rect(rows(need), allocation@.len() as int, available@.len() as int),
        totals_fit(available@, rows(allocation)),
    ensures
        r == !is_safe(available@, rows(allocation), rows(need)),
{
    let ghost av = available@;
    let ghost al = rows(allocation);
    let ghost nd = rows(need);
    let n = allocation.len();
    let m = available.len();
    let ghost all = Seq::new(n as nat, |i: int| i);
    let mut work: Vec<usize> = Vec::new();
    let mut j: usize = 0;
    while j < m
        invariant
            j <= m,
            m == av.len(),
            av == available@,
            work@ == av.take(j as int),
        decreases m - j,
    {
        work.push(available[j]);
        j = j + 1;
        assert(work@ =~= av.take(j as int));
    }
    assert(work@ =~= av);
    let mut finish: Vec<bool> = Vec::new();
    let mut i: usize = 0;
    while i < n
        invariant
            i <= n,
            finish@.len() == i,
            forall|q: int| 0 <= q < i ==> !finish@[q],
        decreases n - i,
    {
        finish.push(false);
        i = i + 1;
    }
    let ghost order: Seq<int> = Seq::empty();
    let mut left: usize = n;
    assert(all.no_duplicates());
    loop
        invariant
            n == al.len(),
            m == av.len(),
            av == available@,
            al == rows(allocation),
            nd == rows(need),
            all == Seq::new(n as nat, |i: int| i),
            all.no_duplicates(),
            rect(al, n as int, m as int),
            rect(nd, n as int, m as int),
            totals_fit(av, al),
            finish@.len() == n,
            work@.len() == m,
            order.no_duplicates(),
            forall|k: int| 0 <= k < order.len() ==> 0 <= #[trigger] order[k] < n,
            forall|t: int| 0 <= t < n ==> (finish@[t] <==> order.contains(t)),
            forall|q: int| 0 <= q < m ==> #[trigger] work@[q] == av[q] + held(al, order, q),
            forall|k: int|
                0 <= k < order.len() ==> #[trigger] can_finish(av, al, nd, order.take(k), order[k]),
            left == n - order.len(),
        decreases left,
    {
        if left == 0 {
            proof {
                lemma_distinct_bound(order, n as int);
                assert(safe_order(av, al, nd, order));
            }
            return false;
        }
        let mut progress = false;
        let ghost left0 = left;
        let mut i: usize = 0;
        while i < n
            invariant
                n == al.len(),
                m == av.len(),
                av == available@,
                al == rows(allocation),
                nd == rows(need),
                all == Seq::new(n as nat, |i: int| i),
                all.no_duplicates(),
                rect(al, n as int, m as int),
                rect(nd, n as int, m as int),
                totals_fit(av, al),
                i <= n,
                finish@.len() == n,
                work@.len() == m,
                order.no_duplicates(),
                forall|k: int| 0 <= k < order.len() ==> 0 <= #[trigger] order[k] < n,
                forall|t: int| 0 <= t < n ==> (finish@[t] <==> order.contains(t)),
                forall|q: int| 0 <= q < m ==> #[trigger] work@[q] == av[q] + held(al, order, q),
                forall|k: int|
                    0 <= k < order.len() ==> #[trigger] can_finish(
                        av,
                        al,
                        nd,
                        order.take(k),
                        order[k],
                    ),
                left == n - order.len(),
                progress ==> left < left0,
                !progress ==> left == left0,
                !progress ==> forall|t: int|
                    0 <= t < i && !finish@[t] ==> !#[trigger] can_finish(av, al, nd, order, t),
            decreases n - i,
        {
            if !finish[i] {
                assert(nd[i as int] == need@[i as int]@);
                if fits(&need[i], &work) {
                    assert(can_finish(av, al, nd, order, i as int)) by {
                        assert forall|r: int| 0 <= r < av.len() implies #[trigger] nd[i as int][r]
                            <= av[r] + held(al, order, r) by {
                            assert(work@[r] == av[r] + held(al, order, r));
                        }
                    }
                    let ghost old_order = order;
                    let mut j: usize = 0;
                    while j < m
                        invariant
                            n == al.len(),
                            m == av.len(),
                            al == rows(allocation),
                            rect(al, n as int, m as int),
                            totals_fit(av, al),
                            all == Seq::new(n as nat, |i: int| i),
                            all.no_duplicates(),
                            i < n,
                            j <= m,
                            work@.len() == m,
                            old_order.no_duplicates(),
                            !old_order.contains(i as int),
                            forall|k: int| 0 <= k < old_order.len() ==> 0 <= #[trigger] old_order[k] < n,
                            forall|q: int|
                                0 <= q < j ==> #[trigger] work@[q] == av[q] + held(al, old_order, q)
                                    + al[i as int][q],
                            forall|q: int|
                                j <= q < m ==> #[trigger] work@[q] == av[q] + held(al, old_order, q),
                        decreases m - j,
                    {
                        proof {
                            let ext = old_order.push(i as int);
                            assert(ext.no_duplicates());
                            assert forall|k: int| 0 <= k < ext.len() implies all.contains(
                                #[trigger] ext[k],
                            ) by {
                                assert(all[ext[k]] == ext[k]);
                            }
                            lemma_held_subset(al, ext, all, j as int);
                            lemma_held_push(al, old_order, i as int, j as int);
                            assert(allocation@[i as int]@[j as int] == al[i as int][j as int]);
                        }
                        let w = work[j] + allocation[i][j];
                        work.set(j, w);
                        j = j + 1;
                    }
                    proof {
                        assert forall|q: int| 0 <= q < m implies #[trigger] work@[q] == av[q]
                            + held(al, old_order.push(i as int), q) by {
                            lemma_held_push(al, old_order, i as int, q);
                        }
                        order = order.push(i as int);
                        assert forall|k: int| 0 <= k < order.len() implies #[trigger] can_finish(
                            av,
                            al,
                            nd,
                            order.take(k),
                            order[k],
                        ) by {
                            if k < old_order.len() {
                                assert(order.take(k) =~= old_order.take(k));
                            } else {
                                assert(order.take(k) =~= old_order);
                            }
                        }
                    }
                    proof {
                        lemma_distinct_bound(old_order, n as int);
                        assert(order.len() <= n) by {
                            lemma_distinct_bound(order, n as int);
                        }
                    }
                    finish.set(i, true);
                    assert forall|t: int| 0 <= t < n implies (finish@[t] <==> order.contains(t)) by {
                        if old_order.contains(t) {
                            let k = old_order.index_of(t);
                            assert(order[k] == t);
                        }
                        if order.contains(t) && t != i {
                            let k = order.index_of(t);
                            assert(old_order[k] == t);
                        }
                        assert(order[old_order.len() as int] == i);
                    }
                    left = left - 1;
                    progress = true;
                }
            }
            i = i + 1;
        }
        if !progress {
            proof {
                lemma_distinct_bound(order, n as int);
                lemma_stuck_is_unsafe(av, al, nd, order);
            }
            return true;
        }
    }
}

} // verus!

verus! {

/// A zero-filled row of `m` entries.
fn zero_row(m: usize) -> (r: Vec<usize>)
    ensures
        r@ == Seq::new(m as nat, |j: int| 0usize),
{
    let mut r: Vec<usize> = Vec::new();
    let mut j: usize = 0;
    while j < m
        invariant
            j <= m,
            r@ == Seq::new(j as nat, |q: int| 0usize),
        decreases m - j,
    {
        r.push(0);
        j = j + 1;
        assert(r@ =~= Seq::new(j as nat, |q: int| 0usize));
    }
    r
}

/// An `n` by `m` matrix of zeros.
fn zero_matrix(n: usize, m: usize) -> (r: Vec<Vec<usize>>)
    ensures
        rows(&r) == Seq::new(n as nat, |i: int| Seq::new(m as nat, |j: int| 0usize)),
{
    let mut r: Vec<Vec<usize>> = Vec::new();
    let mut i: usize = 0;
    while i < n
        invariant
            i <= n,
            rows(&r) == Seq::new(i as nat, |q: int| Seq::new(m as nat, |j: int| 0usize)),
        decreases n - i,
    {
        let row = zero_row(m);
        let ghost prev = rows(&r);
        let ghost row_v = row@;
        r.push(row);
        i = i + 1;
        assert(rows(&r) =~= prev.push(row_v));
        assert(prev.push(row_v) =~= Seq::new(i as nat, |q: int| Seq::new(m as nat, |j: int| 0usize)));
    }
    r
}

/// The banker's three tables for `n` threads and `m` resources: what each
/// thread holds, the most each may claim, and what is free.
pub struct ResourceManager {
    allocation: Vec<Vec<usize>>,
    max: Vec<Vec<usize>>,
    available: Vec<usize>,
}

impl ResourceManager {
    pub closed spec fn allocation_view(&self) -> Seq<Seq<usize>> {
        rows(&self.allocation)
    }

    pub closed spec fn max_view(&self) -> Seq<Seq<usize>> {
        rows(&self.max)
    }

    pub closed spec fn available_view(&self) -> Seq<usize> {
        self.available@
    }

    /// Tables for `num_processes` threads and `num_resources` resources, all zero.
    pub fn new(num_processes: usize, num_resources: usize) -> (r: Self)
        ensures
            r.allocation_view() == Seq::new(
                num_processes as nat,
                |i: int| Seq::new(num_resources as nat, |j: int| 0usize),
            ),
            r.max_view() == Seq::new(
                num_processes as nat,
                |i: int| Seq::new(num_resources as nat, |j: int| 0usize),
            ),
            r.available_view() == Seq::new(num_resources as nat, |j: int| 0usize),
    {
        Self {
            allocation: zero_matrix(num_processes, num_resources),
            max: zero_matrix(num_processes, num_resources),
            available: zero_row(num_resources),
        }
    }

    /// Replaces what thread `process_id` holds.
    pub fn update_allocation(&mut self, process_id: usize, resources: Vec<usize>)
        requires
            process_id < old(self).allocation_view().len(),
        ensures
            final(self).allocation_view() == old(self).allocation_view().update(
                process_id as int,
                resources@,
            ),
            final(self).max_view() == old(self).max_view(),
            final(self).available_view() == old(self).available_view(),
    {
        let ghost old_alloc = rows(&self.allocation);
        self.allocation.set(process_id, resources);
        assert(rows(&self.allocation) =~= old_alloc.update(process_id as int, resources@));
    }

    /// Replaces the most thread `process_id` may claim.
    pub fn update_max(&mut self, process_id: usize, max_resource: Vec<usize>)
        requires
            process_id < old(self).max_view().len(),
        ensures
            final(self).max_view() == old(self).max_view().update(
                process_id as int,
                max_resource@,
            ),
            final(self).allocation_view() == old(self).allocation_view(),
            final(self).available_view() == old(self).available_view(),
    {
        let ghost old_max = rows(&self.max);
        self.max.set(process_id, max_resource);
        assert(rows(&self.max) =~= old_max.update(process_id as int, max_resource@));
    }

    /// Replaces what is free.
    pub fn set_available(&mut self, available: Vec<usize>)
        ensures
            final(self).available_view() == available@,
            final(self).allocation_view() == old(self).allocation_view(),
            final(self).max_view() == old(self).max_view(),
    {
        self.available = available;
    }
}

} // verus!

verus! {

/// Column `r` summed over threads `0..n`.
pub open spec fn column_sum(alloc: Seq<Seq<usize>>, r: int) -> int {
    held(alloc, Seq::new(alloc.len(), |i: int| i), r)
}

proof fn lemma_held_update(
    alloc: Seq<Seq<usize>>,
    s: Seq<int>,
    t: int,
    r: int,
    v: usize,
    q: int,
)
    requires
        0 <= t < alloc.len(),
        0 <= r < alloc[t].len(),
        0 <= q < alloc[t].len(),
        s.no_duplicates(),
        forall|k: int| 0 <= k < s.len() ==> 0 <= #[trigger] s[k] < alloc.len(),
    ensures
        held(alloc.update(t, alloc[t].update(r, v)), s, q) == held(alloc, s, q) + if q == r
            && s.contains(t) {
            v - alloc[t][r]
        } else {
            0
        },
    decreases s.len(),
{
    let a2 = alloc.update(t, alloc[t].update(r, v));
    if s.len() > 0 {
        let s0 = s.drop_last();
        assert(s0.no_duplicates()) by {
            assert forall|i: int, j: int| 0 <= i < j < s0.len() implies s0[i] != s0[j] by {
                assert(s0[i] == s[i] && s0[j] == s[j]);
            }
        }
        lemma_held_update(alloc, s0, t, r, v, q);
        assert(held(a2, s, q) == held(a2, s0, q) + a2[s.last()][q]);
        assert(held(alloc, s, q) == held(alloc, s0, q) + alloc[s.last()][q]);
        if s.last() == t {
            assert(a2[s.last()] == alloc[t].update(r, v));
        } else {
            assert(a2[s.last()] == alloc[s.last()]);
        }
        assert(s.contains(t) == (s0.contains(t) || s.last() == t)) by {
            if s.contains(t) {
                let j = s.index_of(t);
                if j < s.len() - 1 {
                    assert(s0[j] == t);
                }
            }
            if s0.contains(t) {
                let j = s0.index_of(t);
                assert(s[j] == t);
            }
        }
        if s.last() == t {
            assert(!s0.contains(t)) by {
                if s0.contains(t) {
                    let j = s0.index_of(t);
                    assert(s[j] == s[s.len() - 1]);
                }
            }
        }
    }
}

proof fn lemma_held_push_col(alloc: Seq<Seq<usize>>, s: Seq<int>, q: int, m: int)
    requires
        forall|k: int| 0 <= k < s.len() ==> 0 <= #[trigger] s[k] < alloc.len(),
        forall|i: int| 0 <= i < alloc.len() ==> (#[trigger] alloc[i]).len() == m,
    ensures
        0 <= q < m ==> held(alloc.map_values(|row: Seq<usize>| row.push(0usize)), s, q) == held(alloc, s, q),
        held(alloc.map_values(|row: Seq<usize>| row.push(0usize)), s, m) == 0,
    decreases s.len(),
{
    if s.len() > 0 {
        lemma_held_push_col(alloc, s.drop_last(), q, m);
    }
}

proof fn lemma_held_push_row(alloc: Seq<Seq<usize>>, s: Seq<int>, row: Seq<usize>, q: int)
    requires
        forall|k: int| 0 <= k < s.len() ==> 0 <= #[trigger] s[k] < alloc.len(),
    ensures
        held(alloc.push(row), s, q) == held(alloc, s, q),
    decreases s.len(),
{
    if s.len() > 0 {
        lemma_held_push_row(alloc, s.drop_last(), row, q);
    }
}

/// `rows` with zero rows of `m` entries appended until it has `n` rows.
pub open spec fn pad(rows: Seq<Seq<usize>>, n: int, m: int) -> Seq<Seq<usize>> {
    if rows.len() >= n {
        rows
    } else {
        rows + Seq::new((n - rows.len()) as nat, |i: int| Seq::new(m as nat, |j: int| 0usize))
    }
}

/// The banker's bookkeeping for one class of resources (mutexes or
/// semaphores) of a process: per resource its capacity and free units, per
/// thread and resource the units held and the units waited for.
pub struct ResourceTable {
    pub capacity: Vec<usize>,
    pub available: Vec<usize>,
    pub allocation: Vec<Vec<usize>>,
    pub need: Vec<Vec<usize>>,
}

impl ResourceTable {
    pub open spec fn threads(&self) -> int {
        self.allocation@.len() as int
    }

    pub open spec fn resources(&self) -> int {
        self.capacity@.len() as int
    }

    /// Shapes agree, and every unit of every resource is either free or held
    /// by exactly one thread.
    pub open spec fn wf(&self) -> bool {
        &&& self.available@.len() == self.resources()
        &&& rect(rows(&self.allocation), self.threads(), self.resources())
        &&& rect(rows(&self.need), self.threads(), self.resources())
        &&& forall|r: int|
            0 <= r < self.resources() ==> #[trigger] self.available@[r] + column_sum(
                rows(&self.allocation),
                r,
            ) == self.capacity@[r]
    }

    pub fn new() -> (t: Self)
        ensures
            t.wf(),
            t.threads() == 0,
            t.resources() == 0,
    {
        ResourceTable {
            capacity: Vec::new(),
            available: Vec::new(),
            allocation: Vec::new(),
            need: Vec::new(),
        }
    }

    /// A new resource with `cap` units, all free; its id is returned.
    pub fn add_resource(&mut self, cap: usize) -> (id: usize)
        requires
            old(self).wf(),
        ensures
            final(self).wf(),
            id == old(self).resources(),
            final(self).resources() == old(self).resources() + 1,
            final(self).threads() == old(self).threads(),
            final(self).capacity@ == old(self).capacity@.push(cap),
            final(self).available@ == old(self).available@.push(cap),
            rows(&final(self).allocation) == rows(&old(self).allocation).map_values(|row: Seq<usize>| row.push(0usize)),
            rows(&final(self).need) == rows(&old(self).need).map_values(|row: Seq<usize>| row.push(0usize)),
    {
        let ghost a0 = rows(&self.allocation);
        let m = self.capacity.len();
        self.capacity.push(cap);
        self.available.push(cap);
        let n = self.allocation.len();
        let mut i: usize = 0;
        while i < n
            invariant
                n == a0.len(),
                i <= n,
                self.allocation@.len() == n,
                self.need@.len() == n,
                m == self.capacity@.len() - 1,
                self.capacity@ == old(self).capacity@.push(cap),
                self.available@ == old(self).available@.push(cap),
                a0 == rows(&old(self).allocation),
                m == old(self).capacity@.len(),
                rect(a0, n as int, m as int),
                rect(rows(&old(self).need), n as int, m as int),
                forall|j: int| 0 <= j < i ==> #[trigger] self.allocation@[j]@ == a0[j].push(0usize),
                forall|j: int| i <= j < n ==> #[trigger] self.allocation@[j]@ == a0[j],
                forall|j: int| 0 <= j < i ==> #[trigger] self.need@[j]@ == old(self).need@[j]@.push(0usize),
                forall|j: int| i <= j < n ==> #[trigger] self.need@[j]@ == old(self).need@[j]@,
            decreases n - i,
        {
            self.allocation[i].push(0);
            self.need[i].push(0);
            i = i + 1;
        }
        proof {
            let all = Seq::new(n as nat, |i: int| i);
            assert(rows(&self.allocation) =~= a0.map_values(|row: Seq<usize>| row.push(0usize)));
            assert(rows(&self.need) =~= rows(&old(self).need).map_values(|row: Seq<usize>| row.push(0usize)));
            assert forall|r: int| 0 <= r < self.resources() implies #[trigger] self.available@[r] + column_sum(
                rows(&self.allocation),
                r,
            ) == self.capacity@[r] by {
                lemma_held_push_col(a0, all, r, m as int);
                assert(column_sum(rows(&self.allocation), r) == held(a0.map_values(|row: Seq<usize>| row.push(0usize)), all, r));
                if r < m {
                    assert(old(self).available@[r] + column_sum(a0, r) == old(self).capacity@[r]);
                }
            }
            assert forall|i: int| 0 <= i < n implies (#[trigger] rows(&self.need)[i]).len() == m + 1 by {
                assert(rows(&old(self).need)[i].len() == m);
            }
        }
        m
    }

    /// Adds zero rows until thread `tid` has one.
    pub fn ensure_thread(&mut self, tid: usize)
        requires
            old(self).wf(),
        ensures
            final(self).wf(),
            final(self).threads() == if tid < old(self).threads() { old(self).threads() } else { tid + 1 },
            final(self).resources() == old(self).resources(),
            final(self).capacity == old(self).capacity,
            final(self).available == old(self).available,
            forall|i: int| 0 <= i < old(self).threads() ==> #[trigger] rows(&final(self).allocation)[i] == rows(&old(self).allocation)[i],
            forall|i: int| 0 <= i < old(self).threads() ==> #[trigger] rows(&final(self).need)[i] == rows(&old(self).need)[i],
            rows(&final(self).allocation) == pad(rows(&old(self).allocation), tid + 1, old(self).resources()),
            rows(&final(self).need) == pad(rows(&old(self).need), tid + 1, old(self).resources()),
    {
        let m = self.capacity.len();
        while self.allocation.len() <= tid
            invariant
                self.wf(),
                m == self.resources(),
                self.capacity == old(self).capacity,
                self.available == old(self).available,
                old(self).threads() <= self.threads() <= if tid < old(self).threads() { old(self).threads() } else { tid + 1 },
                forall|i: int| 0 <= i < old(self).threads() ==> #[trigger] rows(&self.allocation)[i] == rows(&old(self).allocation)[i],
                forall|i: int| 0 <= i < old(self).threads() ==> #[trigger] rows(&self.need)[i] == rows(&old(self).need)[i],
                rows(&self.allocation) == rows(&old(self).allocation) + Seq::new((self.threads() - old(self).threads()) as nat, |i: int| Seq::new(m as nat, |j: int| 0usize)),
                rows(&self.need) == rows(&old(self).need) + Seq::new((self.threads() - old(self).threads()) as nat, |i: int| Seq::new(m as nat, |j: int| 0usize)),
            decreases tid + 1 - self.allocation@.len(),
        {
            let ghost a0 = rows(&self.allocation);
            let row = zero_row(m);
            let ghost rv = row@;
            self.allocation.push(row);
            let ghost n0 = rows(&self.need);
            let row2 = zero_row(m);
            let ghost rv2 = row2@;
            self.need.push(row2);
            proof {
                assert(rows(&self.allocation) =~= a0.push(rv));
                assert(rows(&self.need) =~= n0.push(rv2));
                let z = |i: int| Seq::new(m as nat, |j: int| 0usize);
                assert(rv =~= Seq::new(m as nat, |j: int| 0usize));
                assert(rv2 =~= Seq::new(m as nat, |j: int| 0usize));
                assert(rows(&self.allocation) =~= rows(&old(self).allocation) + Seq::new((self.threads() - old(self).threads()) as nat, z));
                assert(rows(&self.need) =~= rows(&old(self).need) + Seq::new((self.threads() - old(self).threads()) as nat, z));
                let all0 = Seq::new(a0.len(), |i: int| i);
                let all1 = Seq::new(a0.len() + 1, |i: int| i);
                assert forall|r: int| 0 <= r < self.resources() implies #[trigger] self.available@[r] + column_sum(
                    rows(&self.allocation),
                    r,
                ) == self.capacity@[r] by {
                    assert(all1.drop_last() =~= all0);
                    lemma_held_push_row(a0, all0, rv, r);
                    assert(column_sum(rows(&self.allocation), r) == held(a0.push(rv), all0, r) + rv[r]);
                }
            }
        }
        proof {
            let z = |i: int| Seq::new(m as nat, |j: int| 0usize);
            if tid < old(self).threads() {
                assert(rows(&self.allocation) =~= rows(&old(self).allocation));
                assert(rows(&self.need) =~= rows(&old(self).need));
            }
        }
    }

    /// Thread `t` waits for one more unit of `r`.
    pub fn request(&mut self, t: usize, r: usize)
        requires
            old(self).wf(),
            t < old(self).threads(),
            r < old(self).resources(),
            old(self).need@[t as int]@[r as int] < usize::MAX,
        ensures
            final(self).wf(),
            final(self).capacity == old(self).capacity,
            final(self).available == old(self).available,
            final(self).allocation == old(self).allocation,
            rows(&final(self).need) == rows(&old(self).need).update(t as int, rows(&old(self).need)[t as int].update(r as int, (old(self).need@[t as int]@[r as int] + 1) as usize)),
    {
        assert(rows(&self.need)[t as int] == self.need@[t as int]@);
        let v = self.need[t][r] + 1;
        self.need[t].set(r, v);
        assert(rows(&self.need) =~= rows(&old(self).need).update(t as int, rows(&old(self).need)[t as int].update(r as int, v)));
    }

    /// Thread `t` got the unit it waited for: one unit of `r` moves from free
    /// to held by `t`, and its wait, if any, is over.
    pub fn grant(&mut self, t: usize, r: usize)
        requires
            old(self).wf(),
            t < old(self).threads(),
            r < old(self).resources(),
            old(self).available@[r as int] > 0,
        ensures
            final(self).wf(),
            final(self).capacity == old(self).capacity,
            final(self).available@ == old(self).available@.update(r as int, (old(self).available@[r as int] - 1) as usize),
            rows(&final(self).allocation) == rows(&old(self).allocation).update(t as int, rows(&old(self).allocation)[t as int].update(r as int, (old(self).allocation@[t as int]@[r as int] + 1) as usize)),
            old(self).allocation@[t as int]@[r as int] < usize::MAX,
            rows(&final(self).need) == rows(&old(self).need).update(t as int, rows(&old(self).need)[t as int].update(r as int,
                if old(self).need@[t as int]@[r as int] > 0 { (old(self).need@[t as int]@[r as int] - 1) as usize } else { old(self).need@[t as int]@[r as int] })),
    {
        let ghost a0 = rows(&self.allocation);
        let ghost all = Seq::new(a0.len(), |i: int| i);
        assert(rows(&self.need)[t as int] == self.need@[t as int]@);
        assert(a0[t as int] == self.allocation@[t as int]@);
        proof {
            assert(all[t as int] == t as int);
            assert forall|k: int| 0 <= k < seq![t as int].len() implies all.contains(#[trigger] seq![t as int][k]) by {
                assert(all[t as int] == t as int);
            }
            assert(all.no_duplicates());
            assert(seq![t as int].no_duplicates());
            lemma_held_subset(a0, seq![t as int], all, r as int);
            assert(held(a0, seq![t as int], r as int) == held(a0, seq![t as int].drop_last(), r as int) + a0[t as int][r as int]);
            assert(old(self).available@[r as int] + column_sum(a0, r as int) == old(self).capacity@[r as int]);
            assert(seq![t as int].drop_last() =~= Seq::<int>::empty());
            assert(all[t as int] == t);
        }
        let a = self.allocation[t][r] + 1;
        self.allocation[t].set(r, a);
        let av = self.available[r] - 1;
        self.available.set(r, av);
        let ghost n0 = rows(&self.need);
        assert(n0 == rows(&old(self).need));
        assert(n0[t as int] == old(self).need@[t as int]@);
        let cur = self.need[t][r];
        if cur > 0 {
            self.need[t].set(r, cur - 1);
            assert(rows(&self.need) =~= n0.update(t as int, n0[t as int].update(r as int, (cur - 1) as usize)));
        } else {
            assert(rows(&self.need) =~= n0);
            assert(n0[t as int].update(r as int, cur) =~= n0[t as int]);
            assert(n0.update(t as int, n0[t as int]) =~= n0);
        }
        proof {
            assert(rows(&self.allocation) =~= a0.update(t as int, a0[t as int].update(r as int, a)));
            assert(all.no_duplicates());
            assert forall|q: int| 0 <= q < self.resources() implies #[trigger] self.available@[q] + column_sum(
                rows(&self.allocation),
                q,
            ) == self.capacity@[q] by {
                lemma_held_update(a0, all, t as int, r as int, a, q);
                assert(all[t as int] == t);
            }
            assert forall|i: int| 0 <= i < self.threads() implies (#[trigger] rows(&self.need)[i]).len() == self.resources() by {
                assert(rows(&old(self).need)[i].len() == self.resources());
            }
        }
    }

    /// Thread `t` gives back a unit of `r`: it moves from held to free. A
    /// thread that held none adds a unit to the resource.
    pub fn release(&mut self, t: usize, r: usize)
        requires
            old(self).wf(),
            t < old(self).threads(),
            r < old(self).resources(),
            old(self).capacity@[r as int] < usize::MAX,
        ensures
            final(self).wf(),
            final(self).need == old(self).need,
            old(self).capacity@[r as int] < usize::MAX ==> old(self).available@[r as int] < usize::MAX,
            final(self).available@ == old(self).available@.update(r as int, (old(self).available@[r as int] + 1) as usize),
            old(self).allocation@[t as int]@[r as int] > 0 ==> rows(&final(self).allocation) == rows(&old(self).allocation).update(t as int, rows(&old(self).allocation)[t as int].update(r as int, (old(self).allocation@[t as int]@[r as int] - 1) as usize))
                && final(self).capacity == old(self).capacity,
            old(self).allocation@[t as int]@[r as int] == 0 ==> final(self).allocation == old(self).allocation
                && final(self).capacity@ == old(self).capacity@.update(r as int, (old(self).capacity@[r as int] + 1) as usize),
    {
        let ghost a0 = rows(&self.allocation);
        let ghost all = Seq::new(a0.len(), |i: int| i);
        assert(a0[t as int] == self.allocation@[t as int]@);
        proof {
            lemma_held_nonneg(a0, all, r as int);
        }
        if self.allocation[t][r] > 0 {
            let a = self.allocation[t][r] - 1;
            self.allocation[t].set(r, a);
            let av = self.available[r] + 1;
            self.available.set(r, av);
            proof {
                assert(rows(&self.allocation) =~= a0.update(t as int, a0[t as int].update(r as int, a)));
                assert(all.no_duplicates());
                assert forall|q: int| 0 <= q < self.resources() implies #[trigger] self.available@[q] + column_sum(
                    rows(&self.allocation),
                    q,
                ) == self.capacity@[q] by {
                    lemma_held_update(a0, all, t as int, r as int, a, q);
                    assert(all[t as int] == t);
                }
            }
        } else {
            let av = self.available[r] + 1;
            self.available.set(r, av);
            let c = self.capacity[r] + 1;
            self.capacity.set(r, c);
        }
    }

    /// The need table with thread `t` asking for one more unit of `r`.
    pub open spec fn need_with_request(&self, t: int, r: int) -> Seq<Seq<usize>> {
        rows(&self.need).update(t, rows(&self.need)[t].update(r, (rows(&self.need)[t][r] + 1) as usize))
    }

    /// Whether granting thread `t` one more unit of `r` could deadlock: the
    /// state with that request added is unsafe.
    pub fn would_deadlock(&self, t: usize, r: usize) -> (d: bool)
        requires
            self.wf(),
            t < self.threads(),
            r < self.resources(),
            self.need@[t as int]@[r as int] < usize::MAX,
        ensures
            d == !is_safe(self.available@, rows(&self.allocation), self.need_with_request(t as int, r as int)),
    {
        let mut need: Vec<Vec<usize>> = Vec::new();
        let n = self.need.len();
        let mut i: usize = 0;
        while i < n
            invariant
                i <= n,
                n == self.need@.len(),
                self.wf(),
                t < n,
                r < self.resources(),
                self.need@[t as int]@[r as int] < usize::MAX,
                rows(&need) == self.need_with_request(t as int, r as int).take(i as int),
            decreases n - i,
        {
            let mut row: Vec<usize> = Vec::new();
            let ghost target = self.need_with_request(t as int, r as int)[i as int];
            assert(rows(&self.need)[i as int] == self.need@[i as int]@);
            assert(rows(&self.need)[t as int] == self.need@[t as int]@);
            let m = self.need[i].len();
            let mut j: usize = 0;
            while j < m
                invariant
                    j <= m,
                    i < n,
                    n == self.need@.len(),
                    m == self.need@[i as int]@.len(),
                    self.need@[t as int]@[r as int] < usize::MAX,
                    target == self.need_with_request(t as int, r as int)[i as int],
                    target.len() == m,
                    forall|q: int| 0 <= q < m ==> #[trigger] target[q] == if i == t && q == r { (self.need@[i as int]@[q] + 1) as usize } else { self.need@[i as int]@[q] },
                    row@ == target.take(j as int),
                decreases m - j,
            {
                let v = if i == t && j == r { self.need[i][j] + 1 } else { self.need[i][j] };
                row.push(v);
                j = j + 1;
                assert(row@ =~= target.take(j as int));
            }
            let ghost rv = row@;
            let ghost prev = rows(&need);
            need.push(row);
            i = i + 1;
            assert(rv =~= self.need_with_request(t as int, r as int)[i - 1]);
            assert(rows(&need) =~= prev.push(rv));
            assert(rows(&need) =~= self.need_with_request(t as int, r as int).take(i as int));
        }
        assert(rows(&need) =~= self.need_with_request(t as int, r as int));
        proof {
            assert forall|k: int| 0 <= k < n implies (#[trigger] rows(&need)[k]).len() == self.resources() by {
                assert(rows(&self.need)[k].len() == self.resources());
            }
            assert(totals_fit(self.available@, rows(&self.allocation))) by {
                assert forall|q: int| 0 <= q < self.available@.len() implies self.available@[q] + held(rows(&self.allocation), Seq::new(rows(&self.allocation).len(), |i: int| i), q) <= usize::MAX by {
                    assert(self.available@[q] + column_sum(rows(&self.allocation), q) == self.capacity@[q]);
                }
            }
        }
        deadlock_detected(&self.available, &self.allocation, &need)
    }
}

/// Units of `r` that thread `t` holds; none for a thread without a row yet.
pub open spec fn held_by(tbl: &ResourceTable, t: int, r: int) -> int {
    if 0 <= t < rows(&tbl.allocation).len() {
        rows(&tbl.allocation)[t][r] as int
    } else {
        0
    }
}

/// Units of `r` that thread `t` waits for; none for a thread without a row yet.
pub open spec fn need_of(tbl: &ResourceTable, t: int, r: int) -> int {
    if 0 <= t < rows(&tbl.need).len() {
        rows(&tbl.need)[t][r] as int
    } else {
        0
    }
}

/// Granting thread `t` one more unit of `r` could deadlock: with the tables
/// grown to cover `t` and that request added, the state is unsafe.
pub open spec fn request_unsafe(tbl: &ResourceTable, t: int, r: int) -> bool {
    let a = pad(rows(&tbl.allocation), t + 1, tbl.resources());
    let n = pad(rows(&tbl.need), t + 1, tbl.resources());
    !is_safe(tbl.available@, a, n.update(t, n[t].update(r, (n[t][r] + 1) as usize)))
}

/// Growing the tables with zero rows keeps every thread's counts.
pub proof fn lemma_pad_counts(before: &ResourceTable, after: &ResourceTable, n: int)
    requires
        before.wf(),
        rows(&after.allocation) == pad(rows(&before.allocation), n, before.resources()),
        rows(&after.need) == pad(rows(&before.need), n, before.resources()),
    ensures
        forall|x: int, r: int| 0 <= r < before.resources() ==> #[trigger] held_by(after, x, r) == held_by(before, x, r),
        forall|x: int, r: int| 0 <= r < before.resources() ==> #[trigger] need_of(after, x, r) == need_of(before, x, r),
{
    let m = before.resources();
    assert forall|x: int, r: int| 0 <= r < m implies #[trigger] held_by(after, x, r) == held_by(before, x, r) by {
        let ra = rows(&before.allocation);
        if 0 <= x && ra.len() <= x < n {
            assert(rows(&after.allocation)[x] == Seq::new(m as nat, |j: int| 0usize));
        }
    }
    assert forall|x: int, r: int| 0 <= r < m implies #[trigger] need_of(after, x, r) == need_of(before, x, r) by {
        let rn = rows(&before.need);
        if 0 <= x && rn.len() <= x < n {
            assert(rows(&after.need)[x] == Seq::new(m as nat, |j: int| 0usize));
        }
    }
}

impl ResourceTable {
    /// Thread `t` gives a unit of `r` back and, when `to` names a thread, the
    /// unit passes on to it (the waiter that a release wakes).
    pub fn hand_over(&mut self, t: usize, r: usize, to: Option<usize>)
        requires
            old(self).wf(),
            r < old(self).resources(),
            t < 0x7fff_ffff,
        ensures
            final(self).wf(),
            final(self).resources() == old(self).resources(),
            ({
                let h0 = held_by(old(self), t as int, r as int);
                let ok = old(self).capacity@[r as int] < usize::MAX && h0 > 0;
                &&& ok && to.is_none() ==> held_by(final(self), t as int, r as int) == h0 - 1
                    && final(self).available@[r as int] == old(self).available@[r as int] + 1
                &&& ok && (to matches Some(w) && w != t && w < 0x7fff_ffff) ==> held_by(final(self), t as int, r as int) == h0 - 1
                    && held_by(final(self), to.unwrap() as int, r as int) == held_by(old(self), to.unwrap() as int, r as int) + 1
                    && final(self).available@[r as int] == old(self).available@[r as int]
            }),
    {
        let ghost s0 = *self;
        self.ensure_thread(t);
        let ghost s1 = *self;
        proof { lemma_pad_counts(&s0, &s1, t + 1); }
        assert(rows(&s1.allocation)[t as int] == s1.allocation@[t as int]@);
        let released = self.capacity[r] < usize::MAX && self.allocation[t][r] > 0;
        if self.capacity[r] < usize::MAX {
            self.release(t, r);
        }
        let ghost s2 = *self;
        proof {
            if released {
                assert(s2.available@[r as int] == s1.available@[r as int] + 1);
                assert forall|x: int| x != t implies #[trigger] held_by(&s2, x, r as int) == held_by(&s1, x, r as int) by {}
                assert(held_by(&s2, t as int, r as int) == held_by(&s1, t as int, r as int) - 1);
            }
        }
        if let Some(w) = to {
            if w < 0x7fff_ffff {
                self.ensure_thread(w);
                let ghost s3 = *self;
                proof { lemma_pad_counts(&s2, &s3, w + 1); }
                if self.available[r] > 0 {
                    assert(rows(&s3.allocation)[w as int] == s3.allocation@[w as int]@);
                    self.grant(w, r);
                    assert(held_by(self, w as int, r as int) == held_by(&s3, w as int, r as int) + 1);
                    proof {
                        assert forall|x: int| x != w implies #[trigger] held_by(self, x, r as int) == held_by(&s3, x, r as int) by {}
                    }
                }
            }
        }
    }
}

/// In a well-formed table, for every resource the free units plus the units
/// held by all threads equal the resource's capacity.
pub proof fn lemma_units_conserved(table: &ResourceTable, r: int)
    requires
        table.wf(),
        0 <= r < table.resources(),
    ensures
        table.available@[r] + column_sum(rows(&table.allocation), r) == table.capacity@[r],
{
}

} // verus!
