use vstd::prelude::*;
use vstd::set_lib::{lemma_int_range, lemma_len_subset, lemma_subset_equality, set_int_range};

verus! {

/// Task `u` must complete before task `v` starts: `v` names the id of `u` among its
/// predecessors.
pub open spec fn edge(ids: Seq<u64>, decl: Seq<Seq<u64>>, u: int, v: int) -> bool {
    0 <= u < ids.len() && 0 <= v < ids.len() && v < decl.len() && decl[v].contains(ids[u])
}

/// `r` ranks the tasks so that every edge goes up in rank.
pub open spec fn valid_rank(ids: Seq<u64>, decl: Seq<Seq<u64>>, r: Seq<int>) -> bool {
    &&& r.len() == ids.len()
    &&& forall|u: int, v: int| #[trigger] edge(ids, decl, u, v) ==> r[u] < r[v]
}

/// The dependency graph has no cycle: some ranking orders every edge.
pub open spec fn acyclic(ids: Seq<u64>, decl: Seq<Seq<u64>>) -> bool {
    exists|r: Seq<int>| valid_rank(ids, decl, r)
}

/// The views of a list of predecessor lists.
pub open spec fn decl_view(decls: Seq<Vec<u64>>) -> Seq<Seq<u64>> {
    Seq::new(decls.len(), |i: int| decls[i]@)
}

proof fn lemma_min_exists(s: Set<int>, r: Seq<int>)
    requires
        s.finite(),
        s.len() > 0,
        forall|x: int| s.contains(x) ==> 0 <= x < r.len(),
    ensures
        exists|m: int| s.contains(m) && forall|y: int| s.contains(y) ==> r[m] <= r[y],
    decreases s.len(),
{
    let a = s.choose();
    assert(s.contains(a));
    let s1 = s.remove(a);
    if s1.len() == 0 {
        assert forall|y: int| s.contains(y) implies r[a] <= r[y] by {
            if y != a {
                assert(s1.contains(y));
            }
        }
    } else {
        lemma_min_exists(s1, r);
        let m1 = choose|m: int| s1.contains(m) && forall|y: int| s1.contains(y) ==> r[m] <= r[y];
        if r[a] <= r[m1] {
            assert forall|y: int| s.contains(y) implies r[a] <= r[y] by {
                if y != a {
                    assert(s1.contains(y));
                }
            }
        } else {
            assert forall|y: int| s.contains(y) implies r[m1] <= r[y] by {
                if y != a {
                    assert(s1.contains(y));
                }
            }
        }
    }
}

/// A nonempty set of tasks in which each task waits on another task of the set
/// rules out every ranking: the graph has a cycle.
pub proof fn lemma_blocked_set_cycle(ids: Seq<u64>, decl: Seq<Seq<u64>>, s: Set<int>)
    requires
        s.finite(),
        s.len() > 0,
        forall|x: int| s.contains(x) ==> 0 <= x < ids.len(),
        forall|v: int| s.contains(v) ==> exists|u: int| s.contains(u) && #[trigger] edge(ids, decl, u, v),
    ensures
        !acyclic(ids, decl),
{
    if acyclic(ids, decl) {
        let r = choose|r: Seq<int>| valid_rank(ids, decl, r);
        lemma_min_exists(s, r);
        let m = choose|m: int| s.contains(m) && forall|y: int| s.contains(y) ==> r[m] <= r[y];
        let u = choose|u: int| s.contains(u) && #[trigger] edge(ids, decl, u, m);
        assert(r[u] < r[m]);
    }
}

/// Whether `ids[u]` is among `d`.
fn names(d: &Vec<u64>, id: u64) -> (r: bool)
    ensures
        r == d@.contains(id),
{
    let mut i: usize = 0;
    while i < d.len()
        invariant
            i <= d@.len(),
            forall|j: int| 0 <= j < i ==> d@[j] != id,
        decreases d@.len() - i,
    {
        if d[i] == id {
            return true;
        }
        i = i + 1;
    }
    false
}

/// Whether task `u` must complete before task `v`.
pub fn has_edge(ids: &Vec<u64>, decls: &Vec<Vec<u64>>, u: usize, v: usize) -> (r: bool)
    requires
        ids@.len() == decls@.len(),
    ensures
        r == edge(ids@, decl_view(decls@), u as int, v as int),
{
    if u >= ids.len() || v >= ids.len() {
        return false;
    }
    names(&decls[v], ids[u])
}

/// Whether the dependency graph of `ids` and `decls` has no cycle. Tasks are taken
/// one at a time, each once all of its predecessors were taken; the check fails
/// exactly when some tasks are left and each of them still waits on another.
pub fn is_acyclic(ids: &Vec<u64>, decls: &Vec<Vec<u64>>) -> (r: bool)
    requires
        ids@.len() == decls@.len(),
    ensures
        r == acyclic(ids@, decl_view(decls@)),
{
    let n = ids.len();
    let ghost g_ids = ids@;
    let ghost g_decl = decl_view(decls@);
    let mut done: Vec<bool> = Vec::new();
    let mut k: usize = 0;
    while k < n
        invariant
            k <= n,
            done@.len() == k,
            forall|i: int| 0 <= i < k ==> !done@[i],
        decreases n - k,
    {
        done.push(false);
        k = k + 1;
    }
    let ghost mut taken: Set<int> = Set::empty();
    let ghost mut rank: Seq<int> = Seq::new(n as nat, |i: int| 0int);
    let mut step: usize = 0;
    proof {
        lemma_int_range(0, n as int);
    }
    while step < n
        invariant
            n == ids@.len(),
            n == decls@.len(),
            g_ids == ids@,
            g_decl == decl_view(decls@),
            done@.len() == n,
            step <= n,
            rank.len() == n,
            taken.finite(),
            taken.len() == step,
            taken.subset_of(set_int_range(0, n as int)),
            set_int_range(0, n as int).finite(),
            set_int_range(0, n as int).len() == n,
            forall|i: int| 0 <= i < n ==> (done@[i] <==> taken.contains(i)),
            forall|u: int, v: int|
                #[trigger] edge(g_ids, g_decl, u, v) && taken.contains(v) ==> taken.contains(u) && rank[u]
                    < rank[v],
            forall|v: int| taken.contains(v) ==> rank[v] < step,
        decreases n - step,
    {
        // Look for a task not taken whose predecessors were all taken.
        let mut v: usize = 0;
        let mut found = false;
        while v < n && !found
            invariant
                n == ids@.len(),
                n == decls@.len(),
                g_ids == ids@,
                g_decl == decl_view(decls@),
                done@.len() == n,
                v <= n,
                found ==> v < n && !done@[v as int] && forall|u: int| #[trigger] edge(g_ids, g_decl, u, v as int) ==> done@[u],
                !found ==> forall|w: int|
                    0 <= w < v && !done@[w] ==> exists|u: int| 0 <= u < n && !done@[u] && #[trigger] edge(g_ids, g_decl, u, w),
            decreases n - v + (if found { 0int } else { 1int }),
        {
            if !done[v] {
                let mut u: usize = 0;
                let mut blocked = false;
                while u < n && !blocked
                    invariant
                        n == ids@.len(),
                        n == decls@.len(),
                        g_ids == ids@,
                        g_decl == decl_view(decls@),
                        done@.len() == n,
                        v < n,
                        u <= n,
                        blocked ==> u >= 1 && !done@[u - 1] && edge(g_ids, g_decl, u - 1, v as int),
                        !blocked ==> forall|x: int| 0 <= x < u && #[trigger] edge(g_ids, g_decl, x, v as int) ==> done@[x],
                    decreases n - u,
                {
                    if !done[u] && has_edge(ids, decls, u, v) {
                        blocked = true;
                    }
                    u = u + 1;
                }
                if !blocked {
                    found = true;
                } else {
                    proof {
                        assert(edge(g_ids, g_decl, u - 1, v as int));
                    }
                    v = v + 1;
                }
            } else {
                v = v + 1;
            }
        }
        if !found {
            proof {
                let rest = set_int_range(0, n as int).difference(taken);
                assert(rest.finite());
                if rest.len() == 0 {
                    assert(set_int_range(0, n as int).subset_of(taken)) by {
                        assert forall|x: int| set_int_range(0, n as int).contains(x) implies taken.contains(x) by {
                            if !taken.contains(x) {
                                assert(rest.contains(x));
                            }
                        }
                    }
                    lemma_len_subset(set_int_range(0, n as int), taken);
                }
                assert forall|w: int| rest.contains(w) implies exists|u: int| rest.contains(u) && #[trigger] edge(g_ids, g_decl, u, w) by {
                    assert(!done@[w]);
                    let u = choose|u: int| 0 <= u < n && !done@[u] && #[trigger] edge(g_ids, g_decl, u, w);
                    assert(rest.contains(u));
                }
                lemma_blocked_set_cycle(g_ids, g_decl, rest);
            }
            return false;
        }
        proof {
            assert(!taken.contains(v as int));
            lemma_len_subset(taken.insert(v as int), set_int_range(0, n as int));
            rank = rank.update(v as int, step as int);
            taken = taken.insert(v as int);
        }
        done.set(v, true);
        step = step + 1;
    }
    proof {
        lemma_subset_equality(taken, set_int_range(0, n as int));
        assert(valid_rank(g_ids, g_decl, rank)) by {
            assert forall|u: int, v: int| #[trigger] edge(g_ids, g_decl, u, v) implies rank[u] < rank[v] by {
                assert(taken.contains(v));
            }
        }
    }
    true
}

} // verus!
