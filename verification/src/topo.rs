use vstd::prelude::*;
use vstd::set_lib::{lemma_int_range, lemma_len_subset, set_int_range};

verus! {

/// The control-flow graph has an edge from block `u` to block `v`.
pub open spec fn edge(succ: Seq<Vec<usize>>, u: int, v: int) -> bool {
    0 <= u < succ.len() && exists|k: int| 0 <= k < succ[u]@.len() && #[trigger] succ[u]@[k] as int == v
}

/// Block `v` has a predecessor.
pub open spec fn has_pred(succ: Seq<Vec<usize>>, v: int) -> bool {
    exists|p: int| #[trigger] edge(succ, p, v)
}

/// `w` is among the first `h` entries of `q`.
pub open spec fn in_prefix(q: Seq<usize>, h: int, w: int) -> bool {
    exists|j: int| 0 <= j < h && #[trigger] q[j] as int == w
}

/// The blocks among the first `h` entries of `q`.
pub open spec fn done(q: Seq<usize>, h: int) -> Set<int> {
    Set::new(|w: int| in_prefix(q, h, w))
}

/// How often `v` occurs in `s`.
pub open spec fn occ(s: Seq<usize>, v: int) -> nat
    decreases s.len(),
{
    if s.len() == 0 {
        0
    } else {
        occ(s.drop_last(), v) + if s.last() as int == v { 1nat } else { 0nat }
    }
}

/// The number of edges into `v` from the blocks below `m` that are not in `p`.
pub open spec fn in_from(succ: Seq<Vec<usize>>, v: int, p: Set<int>, m: int) -> nat
    decreases m,
{
    if m <= 0 {
        0
    } else {
        in_from(succ, v, p, m - 1) + if !p.contains(m - 1) && m - 1 < succ.len() { occ(succ[m - 1]@, v) } else { 0nat }
    }
}

/// The number of edges into `v`.
pub open spec fn in_edges(succ: Seq<Vec<usize>>, v: int) -> nat {
    in_from(succ, v, Set::empty(), succ.len() as int)
}

/// A control-flow graph as `topology_sort` reads it: the successors of
/// each block (within the graph) and the number of its predecessors, an
/// edge counted as often as it occurs; the entry (block `0`) has none.
pub open spec fn cfg_ok(succ: Seq<Vec<usize>>, prev_count: Seq<usize>) -> bool {
    &&& succ.len() == prev_count.len()
    &&& succ.len() > 0
    &&& forall|u: int, k: int| 0 <= u < succ.len() && 0 <= k < succ[u]@.len() ==> (#[trigger] succ[u]@[k] as int) < succ.len()
    &&& forall|v: int| 0 <= v < succ.len() ==> #[trigger] prev_count[v] == in_edges(succ, v)
    &&& prev_count[0] == 0
}

/// `o` lists every block once, the entry first, every other block after
/// at least one predecessor, and every block after all its predecessors.
pub open spec fn valid_order(succ: Seq<Vec<usize>>, o: Seq<usize>) -> bool {
    &&& o.len() == succ.len()
    &&& o.no_duplicates()
    &&& forall|i: int| 0 <= i < o.len() ==> (#[trigger] o[i] as int) < succ.len()
    &&& o[0] == 0
    &&& forall|i: int| 0 < i < o.len() ==> has_pred(succ, #[trigger] o[i] as int)
    &&& forall|i: int, p: int| 0 <= i < o.len() && #[trigger] edge(succ, p, o[i] as int)
        ==> exists|j: int| 0 <= j < i && #[trigger] o[j] as int == p
}

proof fn lemma_done_push(q: Seq<usize>, h: int, x: usize)
    requires
        0 <= h <= q.len(),
    ensures
        done(q.push(x), h) == done(q, h),
{
    assert forall|w: int| done(q.push(x), h).contains(w) == done(q, h).contains(w) by {
        if in_prefix(q.push(x), h, w) {
            let j = choose|j: int| 0 <= j < h && #[trigger] q.push(x)[j] as int == w;
            assert(q[j] == q.push(x)[j]);
        }
        if in_prefix(q, h, w) {
            let j = choose|j: int| 0 <= j < h && #[trigger] q[j] as int == w;
            assert(q.push(x)[j] == q[j]);
        }
    }
    assert(done(q.push(x), h) =~= done(q, h));
}

proof fn lemma_done_next(q: Seq<usize>, h: int)
    requires
        0 <= h < q.len(),
    ensures
        done(q, h + 1) == done(q, h).insert(q[h] as int),
{
    assert forall|w: int| done(q, h + 1).contains(w) == done(q, h).insert(q[h] as int).contains(w) by {
        if in_prefix(q, h + 1, w) {
            let j = choose|j: int| 0 <= j < h + 1 && #[trigger] q[j] as int == w;
            if j < h {
                assert(in_prefix(q, h, w));
            }
        }
        if in_prefix(q, h, w) {
            let j = choose|j: int| 0 <= j < h && #[trigger] q[j] as int == w;
            assert(in_prefix(q, h + 1, w));
        }
        if w == q[h] as int {
            assert(in_prefix(q, h + 1, w));
        }
    }
    assert(done(q, h + 1) =~= done(q, h).insert(q[h] as int));
}

/// Distinct entries below `n` are at most `n`.
proof fn lemma_distinct_bounded(q: Seq<usize>, n: int)
    requires
        q.no_duplicates(),
        forall|i: int| 0 <= i < q.len() ==> (#[trigger] q[i] as int) < n,
        0 <= n,
    ensures
        q.len() <= n,
{
    let s = q.map_values(|x: usize| x as int);
    assert(s.no_duplicates()) by {
        assert forall|i: int, j: int| 0 <= i < s.len() && 0 <= j < s.len() && i != j implies s[i] != s[j] by {
            assert(q[i] != q[j]);
        }
    }
    s.unique_seq_to_set();
    lemma_int_range(0, n);
    assert(s.to_set().subset_of(set_int_range(0, n))) by {
        assert forall|w: int| s.to_set().contains(w) implies set_int_range(0, n).contains(w) by {
            let i = choose|i: int| 0 <= i < s.len() && s[i] == w;
            assert(q[i] as int == w);
        }
    }
    lemma_len_subset(s.to_set(), set_int_range(0, n));
}

proof fn lemma_occ_take(s: Seq<usize>, k: int, v: int)
    requires
        0 <= k < s.len(),
    ensures
        occ(s.take(k + 1), v) == occ(s.take(k), v) + if s[k] as int == v { 1nat } else { 0nat },
{
    assert(s.take(k + 1).drop_last() =~= s.take(k));
}

proof fn lemma_occ_take_le(s: Seq<usize>, k: int, v: int)
    requires
        0 <= k <= s.len(),
    ensures
        occ(s.take(k), v) <= occ(s, v),
    decreases s.len() - k,
{
    if k < s.len() {
        lemma_occ_take(s, k, v);
        lemma_occ_take_le(s, k + 1, v);
    } else {
        assert(s.take(k) =~= s);
    }
}

proof fn lemma_occ_pos(s: Seq<usize>, v: int)
    ensures
        occ(s, v) > 0 <==> exists|k: int| 0 <= k < s.len() && #[trigger] s[k] as int == v,
    decreases s.len(),
{
    if s.len() > 0 {
        lemma_occ_pos(s.drop_last(), v);
        if exists|k: int| 0 <= k < s.drop_last().len() && #[trigger] s.drop_last()[k] as int == v {
            let k = choose|k: int| 0 <= k < s.drop_last().len() && #[trigger] s.drop_last()[k] as int == v;
            assert(s[k] as int == v);
        }
        if exists|k: int| 0 <= k < s.len() && #[trigger] s[k] as int == v {
            let k = choose|k: int| 0 <= k < s.len() && #[trigger] s[k] as int == v;
            if k < s.len() - 1 {
                assert(s.drop_last()[k] as int == v);
            }
        }
    }
}

/// Taking `u` out of the blocks still to count removes its edges.
proof fn lemma_in_from_insert(succ: Seq<Vec<usize>>, v: int, p: Set<int>, u: int, m: int)
    requires
        !p.contains(u),
        0 <= u < succ.len(),
    ensures
        in_from(succ, v, p, m) == in_from(succ, v, p.insert(u), m) + if 0 <= u < m { occ(succ[u]@, v) } else { 0nat },
    decreases m,
{
    if m > 0 {
        lemma_in_from_insert(succ, v, p, u, m - 1);
    }
}

/// A block not yet counted contributes its edges.
proof fn lemma_in_from_ge(succ: Seq<Vec<usize>>, v: int, p: Set<int>, u: int, m: int)
    requires
        !p.contains(u),
        0 <= u < m,
        u < succ.len(),
    ensures
        in_from(succ, v, p, m) >= occ(succ[u]@, v),
{
    lemma_in_from_insert(succ, v, p, u, m);
}

/// No edges left to count means every predecessor below `m` is in `p`.
proof fn lemma_in_from_zero(succ: Seq<Vec<usize>>, v: int, p: Set<int>, q: int, m: int)
    requires
        in_from(succ, v, p, m) == 0,
        edge(succ, q, v),
        q < m,
    ensures
        p.contains(q),
{
    if !p.contains(q) {
        let k = choose|k: int| 0 <= k < succ[q]@.len() && #[trigger] succ[q]@[k] as int == v;
        lemma_occ_pos(succ[q]@, v);
        lemma_in_from_ge(succ, v, p, q, m);
    }
}

/// Where every predecessor below `m` is in `p`, no edges are left to count.
proof fn lemma_in_from_all(succ: Seq<Vec<usize>>, v: int, p: Set<int>, m: int)
    requires
        forall|q: int| 0 <= q < m && #[trigger] edge(succ, q, v) ==> p.contains(q),
        m <= succ.len(),
    ensures
        in_from(succ, v, p, m) == 0,
    decreases m,
{
    if m > 0 {
        lemma_in_from_all(succ, v, p, m - 1);
        if !p.contains(m - 1) {
            lemma_occ_pos(succ[m - 1]@, v);
            if occ(succ[m - 1]@, v) > 0 {
                let k = choose|k: int| 0 <= k < succ[m - 1]@.len() && #[trigger] succ[m - 1]@[k] as int == v;
                assert(edge(succ, m - 1, v));
            }
        }
    }
}

/// A block has edges into it exactly when it has a predecessor.
proof fn lemma_in_edges_pos(succ: Seq<Vec<usize>>, v: int)
    ensures
        in_edges(succ, v) > 0 <==> has_pred(succ, v),
{
    if exists|q: int| #[trigger] edge(succ, q, v) {
        let q = choose|q: int| #[trigger] edge(succ, q, v);
        let k = choose|k: int| 0 <= k < succ[q]@.len() && #[trigger] succ[q]@[k] as int == v;
        lemma_occ_pos(succ[q]@, v);
        lemma_in_from_ge(succ, v, Set::empty(), q, succ.len() as int);
    } else {
        lemma_in_from_all(succ, v, Set::empty(), succ.len() as int);
    }
}

/// The outer invariant of `topology_sort`: the queue holds distinct
/// blocks, the entry first; its first `head` entries have been handled;
/// each counter holds how many edges from blocks not yet handled lead to
/// its block; a block other than the entry is queued exactly when it has
/// predecessors and its counter is zero; and every predecessor of a
/// queued block is handled before it.
pub open spec fn sort_state(succ: Seq<Vec<usize>>, queue: Seq<usize>, head: int, indegs: Seq<usize>) -> bool {
    let n = succ.len() as int;
    &&& 0 < queue.len()
    &&& queue[0] == 0
    &&& 0 <= head <= queue.len()
    &&& queue.no_duplicates()
    &&& forall|i: int| 0 <= i < queue.len() ==> (#[trigger] queue[i] as int) < n
    &&& indegs.len() == n
    &&& forall|v: int| 0 <= v < n ==> #[trigger] indegs[v] as int == in_from(succ, v, done(queue, head), n)
    &&& forall|v: int| 0 < v < n ==> (#[trigger] queue.contains(v as usize) <==> (in_edges(succ, v) > 0 && indegs[v] == 0))
    &&& forall|i: int, q: int| 0 <= i < queue.len() && #[trigger] edge(succ, q, queue[i] as int)
        ==> exists|j: int| 0 <= j < i && j < head && #[trigger] queue[j] as int == q
}

/// Orders the blocks of a control-flow graph so that each comes after all
/// its predecessors (Kahn's algorithm from the entry, block `0`): a block
/// is taken once every edge into it comes from a block already taken.
/// Gives the empty list where some block is never taken (it lies on a
/// cycle or cannot be reached).
pub fn topology_sort(succ: &Vec<Vec<usize>>, prev_count: &Vec<usize>) -> (r: Vec<usize>)
    requires
        cfg_ok(succ@, prev_count@),
    ensures
        r@.len() == 0 || r@.len() == succ@.len(),
        r@.len() == succ@.len() ==> {
            &&& r@.no_duplicates()
            &&& forall|i: int| 0 <= i < r@.len() ==> (#[trigger] r@[i] as int) < succ@.len()
            &&& r@[0] == 0
            &&& forall|i: int, p: int| 0 <= i < r@.len() && #[trigger] edge(succ@, p, r@[i] as int)
                ==> exists|j: int| 0 <= j < i && #[trigger] r@[j] as int == p
        },
        r@.len() == 0 ==> !exists|o: Seq<usize>| #[trigger] valid_order(succ@, o),
{
    let n = succ.len();
    let ghost g = succ@;
    let mut indegs: Vec<usize> = Vec::new();
    let mut i: usize = 0;
    while i < n
        invariant
            i <= n,
            n == prev_count@.len(),
            indegs@ == prev_count@.take(i as int),
        decreases n - i,
    {
        indegs.push(prev_count[i]);
        proof {
            assert(prev_count@.take(i + 1) =~= prev_count@.take(i as int).push(prev_count@[i as int]));
        }
        i = i + 1;
    }
    proof {
        assert(prev_count@.take(n as int) =~= prev_count@);
    }
    let mut queue: Vec<usize> = Vec::new();
    queue.push(0);
    let mut head: usize = 0;
    proof {
        assert(done(queue@, 0) =~= Set::<int>::empty());
        assert forall|v: int| 0 < v < n implies (#[trigger] queue@.contains(v as usize)
            <==> (in_edges(g, v) > 0 && indegs@[v] == 0)) by {
            if queue@.contains(v as usize) {
                let j = choose|j: int| 0 <= j < queue@.len() && queue@[j] == v as usize;
                assert(j == 0);
            }
        }
        assert forall|i: int, q: int| 0 <= i < queue@.len() && #[trigger] edge(g, q, queue@[i] as int)
            implies exists|j: int| 0 <= j < i && j < 0 && #[trigger] queue@[j] as int == q by {
            lemma_in_edges_pos(g, 0);
        }
    }
    while head < queue.len()
        invariant
            g == succ@,
            n == g.len(),
            cfg_ok(g, prev_count@),
            sort_state(g, queue@, head as int, indegs@),
        decreases n - head,
    {
        proof {
            lemma_distinct_bounded(queue@, n as int);
        }
        let u = queue[head];
        let ghost h0 = head as int;
        let ghost q0 = queue@;
        let ghost p_old = done(q0, h0);
        head = head + 1;
        let ghost p_new = done(q0, h0 + 1);
        proof {
            lemma_done_next(q0, h0);
            assert(!p_old.contains(u as int)) by {
                if in_prefix(q0, h0, u as int) {
                    let j = choose|j: int| 0 <= j < h0 && #[trigger] q0[j] as int == u as int;
                    assert(q0[j] == q0[h0]);
                }
            }
        }
        let su = &succ[u];
        let ghost sv = su@;
        let mut k: usize = 0;
        proof {
            assert(sv.take(0) =~= Seq::<usize>::empty());
            assert(q0 =~= queue@.take(q0.len() as int));
        }
        while k < su.len()
            invariant
                g == succ@,
                n == g.len(),
                cfg_ok(g, prev_count@),
                (u as int) < n,
                sv == g[u as int]@,
                *su == g[u as int],
                k <= sv.len(),
                h0 + 1 == head,
                q0 == queue@.take(q0.len() as int),
                q0.len() <= queue@.len(),
                h0 < q0.len(),
                q0[h0] == u,
                p_old == done(q0, h0),
                p_new == p_old.insert(u as int),
                !p_old.contains(u as int),
                done(queue@, head as int) == p_new,
                0 < queue@.len(),
                queue@[0] == 0,
                head <= queue@.len(),
                queue@.no_duplicates(),
                forall|i: int| 0 <= i < queue@.len() ==> (#[trigger] queue@[i] as int) < n,
                indegs@.len() == n,
                forall|v: int| 0 <= v < n ==> #[trigger] indegs@[v] as int == in_from(g, v, p_old, n as int) - occ(sv.take(k as int), v),
                forall|v: int| 0 < v < n ==> (#[trigger] queue@.contains(v as usize) <==> (in_edges(g, v) > 0 && indegs@[v] == 0)),
                forall|i: int, q: int| 0 <= i < queue@.len() && #[trigger] edge(g, q, queue@[i] as int)
                    ==> exists|j: int| 0 <= j < i && j < head && #[trigger] queue@[j] as int == q,
            decreases sv.len() - k,
        {
            let v = su[k];
            proof {
                lemma_occ_take(sv, k as int, v as int);
                lemma_occ_take_le(sv, k + 1, v as int);
                lemma_in_from_ge(g, v as int, p_old, u as int, n as int);
                assert(edge(g, u as int, v as int));
                if v == 0 {
                    lemma_in_edges_pos(g, 0);
                }
                assert(indegs@[v as int] >= 1);
                assert(v != 0);
                let vi = v as int;
                assert(!queue@.contains(vi as usize));
                assert(vi as usize == v);
            }
            let d = indegs[v] - 1;
            indegs.set(v, d);
            let ghost before_push = queue@;
            if d == 0 {
                queue.push(v);
            }
            proof {
                assert(!before_push.contains(v));
                assert forall|w: usize| #[trigger] queue@.contains(w) == (before_push.contains(w) || (d == 0 && w == v)) by {
                    if queue@.contains(w) {
                        let j = choose|j: int| 0 <= j < queue@.len() && queue@[j] == w;
                        if j < before_push.len() {
                            assert(before_push[j] == w);
                        }
                    }
                    if before_push.contains(w) {
                        let j = choose|j: int| 0 <= j < before_push.len() && before_push[j] == w;
                        assert(queue@[j] == w);
                    }
                    if d == 0 && w == v {
                        assert(queue@[queue@.len() - 1] == w);
                    }
                }
                if d == 0 {
                    lemma_done_push(before_push, head as int, v);
                    lemma_in_from_insert(g, v as int, p_old, u as int, n as int);
                    lemma_in_edges_pos(g, v as int);
                    assert(in_from(g, v as int, p_new, n as int) == 0);
                    assert(queue@.no_duplicates()) by {
                        assert forall|i: int, j: int| 0 <= i < queue@.len() && 0 <= j < queue@.len() && i != j
                            implies queue@[i] != queue@[j] by {
                            if i < before_push.len() && j < before_push.len() {
                                assert(before_push[i] == queue@[i]);
                                assert(before_push[j] == queue@[j]);
                            } else if i < before_push.len() {
                                assert(before_push[i] == queue@[i]);
                                if queue@[i] == queue@[j] {
                                    assert(before_push.contains(v));
                                }
                            } else if j < before_push.len() {
                                assert(before_push[j] == queue@[j]);
                                if queue@[i] == queue@[j] {
                                    assert(before_push.contains(v));
                                }
                            }
                        }
                    }
                    assert forall|i: int, q: int| 0 <= i < queue@.len() && #[trigger] edge(g, q, queue@[i] as int)
                        implies exists|j: int| 0 <= j < i && j < head && #[trigger] queue@[j] as int == q by {
                        if i < before_push.len() {
                            assert(queue@[i] == before_push[i]);
                            let j = choose|j: int| 0 <= j < i && j < head && #[trigger] before_push[j] as int == q;
                            assert(queue@[j] == before_push[j]);
                        } else {
                            assert(queue@[i] == v);
                            lemma_in_from_zero(g, v as int, p_new, q, n as int);
                            assert(done(queue@, head as int).contains(q));
                            let j = choose|j: int| 0 <= j < head && #[trigger] queue@[j] as int == q;
                        }
                    }
                } else {
                    assert(queue@ == before_push);
                }
                assert(q0 =~= queue@.take(q0.len() as int));
                assert forall|w: int| 0 <= w < n implies #[trigger] indegs@[w] as int == in_from(g, w, p_old, n as int) - occ(sv.take(k + 1), w) by {
                    lemma_occ_take(sv, k as int, w);
                }
            }
            k = k + 1;
        }
        proof {
            assert(sv.take(sv.len() as int) =~= sv);
            assert forall|v: int| 0 <= v < n implies #[trigger] indegs@[v] as int == in_from(g, v, done(queue@, head as int), n as int) by {
                lemma_in_from_insert(g, v, p_old, u as int, n as int);
            }
        }
    }
    if queue.len() != n {
        proof {
            lemma_distinct_bounded(queue@, n as int);
            if exists|o: Seq<usize>| #[trigger] valid_order(g, o) {
                let o = choose|o: Seq<usize>| #[trigger] valid_order(g, o);
                lemma_order_in_queue(g, o, queue@, indegs@, o.len() as int);
                let so = o.map_values(|x: usize| x as int);
                let sq = queue@.map_values(|x: usize| x as int);
                assert(so.no_duplicates()) by {
                    assert forall|i: int, j: int| 0 <= i < so.len() && 0 <= j < so.len() && i != j implies so[i] != so[j] by {
                        assert(o[i] != o[j]);
                    }
                }
                so.unique_seq_to_set();
                sq.lemma_cardinality_of_set();
                assert(so.to_set().subset_of(sq.to_set())) by {
                    assert forall|w: int| so.to_set().contains(w) implies sq.to_set().contains(w) by {
                        let i = choose|i: int| 0 <= i < so.len() && so[i] == w;
                        assert(queue@.contains(o[i]));
                        let j = choose|j: int| 0 <= j < queue@.len() && queue@[j] == o[i];
                        assert(sq[j] == w);
                    }
                }
                lemma_len_subset(so.to_set(), sq.to_set());
            }
        }
        Vec::new()
    } else {
        queue
    }
}

/// Every block of a valid order is queued once the queue has run dry.
proof fn lemma_order_in_queue(g: Seq<Vec<usize>>, o: Seq<usize>, queue: Seq<usize>, indegs: Seq<usize>, m: int)
    requires
        valid_order(g, o),
        sort_state(g, queue, queue.len() as int, indegs),
        0 <= m <= o.len(),
    ensures
        forall|i: int| 0 <= i < m ==> queue.contains(#[trigger] o[i]),
    decreases m,
{
    if m > 0 {
        lemma_order_in_queue(g, o, queue, indegs, m - 1);
        let i = m - 1;
        if i == 0 {
            assert(queue[0] == o[0]);
        } else {
            let v = o[i] as int;
            assert(o[i] != o[0]);
            let p = done(queue, queue.len() as int);
            assert forall|q: int| 0 <= q < g.len() && #[trigger] edge(g, q, v) implies p.contains(q) by {
                let j = choose|j: int| 0 <= j < i && #[trigger] o[j] as int == q;
                assert(queue.contains(o[j]));
                let k = choose|k: int| 0 <= k < queue.len() && queue[k] == o[j];
                assert(queue[k] as int == q);
                assert(in_prefix(queue, queue.len() as int, q));
            }
            lemma_in_from_all(g, v, p, g.len() as int);
            lemma_in_edges_pos(g, v);
            assert(indegs[v] == 0);
            assert(queue.contains(v as usize));
        }
    }
}

} // verus!
