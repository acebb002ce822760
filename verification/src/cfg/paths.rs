//! The execution paths of a control flow graph are exactly its walks from the
//! entry that end at the exit, reach it nowhere before, go along edges of the
//! graph and pass no node more than twice.
use vstd::prelude::*;
use crate::shared::edge::Edge;
use crate::cfg::flow::{paths_from, paths_next, targets, occurrences};

verus! {

/// `es` holds an edge from `a` to `b`.
pub open spec fn has_edge(es: Seq<Edge>, a: u32, b: u32) -> bool {
    exists|j: int| 0 <= j < es.len() && (#[trigger] es[j]).from == a && es[j].to == b
}

/// `p` goes on from `path` at `from`, ends at `stop`, and from `from` on each
/// step is an edge of `es`.
pub open spec fn continues(es: Seq<Edge>, stop: u32, path: Seq<u32>, from: u32, p: Seq<u32>) -> bool {
    &&& p.len() > path.len()
    &&& p.subrange(0, path.len() as int) == path
    &&& p[path.len() as int] == from
    &&& p.last() == stop
    &&& forall|i: int| path.len() <= i < p.len() - 1 ==> #[trigger] has_edge(es, p[i], p[i + 1])
}

/// No node is more than twice on `p`.
pub open spec fn at_most_twice(p: Seq<u32>) -> bool {
    forall|y: u32| #[trigger] occurrences(p, y) <= 2
}

proof fn lemma_targets(es: Seq<Edge>, from: u32)
    ensures
        forall|k: int| 0 <= k < targets(es, from).len() ==> has_edge(es, from, #[trigger] targets(es, from)[k]),
    decreases es.len(),
{
    if es.len() > 0 {
        lemma_targets(es.drop_last(), from);
        let t = targets(es.drop_last(), from);
        assert forall|k: int| 0 <= k < targets(es, from).len() implies has_edge(es, from, #[trigger] targets(es, from)[k]) by {
            if k < t.len() {
                assert(targets(es, from)[k] == t[k]);
                assert(has_edge(es.drop_last(), from, t[k]));
                let j = choose|j: int| 0 <= j < es.drop_last().len() && (#[trigger] es.drop_last()[j]).from == from
                    && es.drop_last()[j].to == t[k];
                assert(es[j] == es.drop_last()[j]);
            } else {
                assert(es[es.len() - 1] == es.last());
            }
        }
    }
}

proof fn lemma_occurrences_push(p: Seq<u32>, x: u32)
    ensures
        forall|y: u32| #[trigger] occurrences(p.push(x), y) == occurrences(p, y) + if x == y { 1nat } else { 0nat },
{
    assert(p.push(x).drop_last() =~= p);
}

proof fn lemma_paths_from(es: Seq<Edge>, stop: u32, from: u32, path: Seq<u32>, fuel: nat)
    requires
        at_most_twice(path),
        occurrences(path, stop) == 0,
    ensures
        forall|q: int| 0 <= q < paths_from(es, stop, from, path, fuel).len() ==> {
            &&& continues(es, stop, path, from, #[trigger] paths_from(es, stop, from, path, fuel)[q])
            &&& at_most_twice(paths_from(es, stop, from, path, fuel)[q])
            &&& forall|i: int| path.len() <= i < paths_from(es, stop, from, path, fuel)[q].len() - 1
                ==> paths_from(es, stop, from, path, fuel)[q][i] != stop
        },
    decreases fuel, 0int,
{
    lemma_occurrences_push(path, from);
    let ps = paths_from(es, stop, from, path, fuel);
    if from == stop {
        let p = path.push(from);
        assert(ps =~= seq![p]);
        assert(p.subrange(0, path.len() as int) =~= path);
        assert forall|y: u32| #[trigger] occurrences(p, y) <= 2 by {
            assert(occurrences(path, y) <= 2);
        }
    } else if occurrences(path, from) >= 2 || fuel == 0 {
    } else {
        let next = targets(es, from);
        let path2 = path.push(from);
        assert forall|y: u32| #[trigger] occurrences(path2, y) <= 2 by {
            assert(occurrences(path, y) <= 2);
        }
        lemma_paths_next(es, stop, next, path2, (fuel - 1) as nat, next.len() as int);
        lemma_targets(es, from);
        let pn = paths_next(es, stop, next, path2, (fuel - 1) as nat, next.len() as int);
        assert(ps == pn);
        assert forall|q: int| 0 <= q < ps.len() implies continues(es, stop, path, from, #[trigger] ps[q])
            && at_most_twice(ps[q]) && forall|i: int| path.len() <= i < ps[q].len() - 1 ==> ps[q][i] != stop by {
            let p = ps[q];
            assert(pn[q].len() > path2.len());
            assert(p.subrange(0, path2.len() as int) == path2);
            assert(p.subrange(0, path.len() as int) =~= path2.subrange(0, path.len() as int));
            assert(path2.subrange(0, path.len() as int) =~= path);
            assert(p[path.len() as int] == path2[path.len() as int]);
            let j = choose|j: int| 0 <= j < next.len() && p[path2.len() as int] == #[trigger] next[j];
            assert(has_edge(es, from, next[j]));
            assert forall|i: int| path.len() <= i < p.len() - 1 implies #[trigger] has_edge(es, p[i], p[i + 1]) by {
                if i == path.len() {
                    assert(p[i] == from);
                }
            }
            assert(p[path.len() as int] == from);
        }
    }
}

proof fn lemma_paths_next(es: Seq<Edge>, stop: u32, next: Seq<u32>, path: Seq<u32>, fuel: nat, k: int)
    requires
        at_most_twice(path),
        occurrences(path, stop) == 0,
    ensures
        forall|q: int| 0 <= q < paths_next(es, stop, next, path, fuel, k).len() ==> {
            &&& #[trigger] paths_next(es, stop, next, path, fuel, k)[q].len() > path.len()
            &&& paths_next(es, stop, next, path, fuel, k)[q].subrange(0, path.len() as int) == path
            &&& exists|j: int| 0 <= j < next.len()
                && paths_next(es, stop, next, path, fuel, k)[q][path.len() as int] == #[trigger] next[j]
            &&& paths_next(es, stop, next, path, fuel, k)[q].last() == stop
            &&& forall|i: int| path.len() <= i < paths_next(es, stop, next, path, fuel, k)[q].len() - 1
                ==> #[trigger] has_edge(es, paths_next(es, stop, next, path, fuel, k)[q][i],
                    paths_next(es, stop, next, path, fuel, k)[q][i + 1])
            &&& at_most_twice(paths_next(es, stop, next, path, fuel, k)[q])
            &&& forall|i: int| path.len() <= i < paths_next(es, stop, next, path, fuel, k)[q].len() - 1
                ==> paths_next(es, stop, next, path, fuel, k)[q][i] != stop
        },
    decreases fuel, k + 1,
{
    if !(k <= 0 || k > next.len()) {
        lemma_paths_next(es, stop, next, path, fuel, k - 1);
        lemma_paths_from(es, stop, next[k - 1], path, fuel);
        let a = paths_next(es, stop, next, path, fuel, k - 1);
        let b = paths_from(es, stop, next[k - 1], path, fuel);
        let ps = paths_next(es, stop, next, path, fuel, k);
        assert(ps == a + b);
        assert forall|q: int| 0 <= q < ps.len() implies {
            &&& #[trigger] ps[q].len() > path.len()
            &&& ps[q].subrange(0, path.len() as int) == path
            &&& exists|j: int| 0 <= j < next.len() && ps[q][path.len() as int] == #[trigger] next[j]
            &&& ps[q].last() == stop
            &&& forall|i: int| path.len() <= i < ps[q].len() - 1 ==> #[trigger] has_edge(es, ps[q][i], ps[q][i + 1])
            &&& at_most_twice(ps[q])
            &&& forall|i: int| path.len() <= i < ps[q].len() - 1 ==> ps[q][i] != stop
        } by {
            if q < a.len() {
                assert(ps[q] == a[q]);
            } else {
                assert(ps[q] == b[q - a.len()]);
                assert(continues(es, stop, path, next[k - 1], b[q - a.len()]));
                assert(ps[q][path.len() as int] == next[k - 1]);
            }
        }
    }
}

/// Every execution path that the graph with edges `es` has from `start`
/// begins at `start`, ends at `stop` and reaches it nowhere before, goes from
/// node to node along edges of the graph, and passes no node more than twice.
pub proof fn law_execution_paths(es: Seq<Edge>, stop: u32, start: u32, fuel: nat)
    ensures
        forall|q: int| 0 <= q < paths_from(es, stop, start, seq![], fuel).len() ==> {
            let p = #[trigger] paths_from(es, stop, start, seq![], fuel)[q];
            &&& p.len() > 0
            &&& p[0] == start
            &&& p.last() == stop
            &&& forall|i: int| 0 <= i < p.len() - 1 ==> #[trigger] has_edge(es, p[i], p[i + 1])
            &&& forall|i: int| 0 <= i < p.len() - 1 ==> #[trigger] p[i] != stop
            &&& at_most_twice(p)
        },
{
    lemma_paths_from(es, stop, start, seq![], fuel);
}

proof fn lemma_targets_has(es: Seq<Edge>, a: u32, b: u32)
    requires
        has_edge(es, a, b),
    ensures
        targets(es, a).contains(b),
    decreases es.len(),
{
    let j = choose|j: int| 0 <= j < es.len() && (#[trigger] es[j]).from == a && es[j].to == b;
    let t = targets(es.drop_last(), a);
    if j == es.len() - 1 {
        assert(targets(es, a) == t.push(b));
        assert(targets(es, a)[t.len() as int] == b);
    } else {
        assert(es.drop_last()[j] == es[j]);
        lemma_targets_has(es.drop_last(), a, b);
        let k = choose|k: int| 0 <= k < t.len() && t[k] == b;
        assert(targets(es, a)[k] == t[k]);
    }
}

proof fn lemma_occurrences_prefix(p: Seq<u32>, m: int, y: u32)
    requires
        0 <= m <= p.len(),
    ensures
        occurrences(p.subrange(0, m), y) <= occurrences(p, y),
    decreases p.len(),
{
    if m == p.len() {
        assert(p.subrange(0, m) =~= p);
    } else {
        assert(p.drop_last().subrange(0, m) =~= p.subrange(0, m));
        lemma_occurrences_prefix(p.drop_last(), m, y);
    }
}

proof fn lemma_paths_next_has(es: Seq<Edge>, stop: u32, next: Seq<u32>, path: Seq<u32>, fuel: nat, k: int, j: int,
    p: Seq<u32>)
    requires
        0 <= j < k <= next.len(),
        paths_from(es, stop, next[j], path, fuel).contains(p),
    ensures
        paths_next(es, stop, next, path, fuel, k).contains(p),
    decreases k,
{
    let a = paths_next(es, stop, next, path, fuel, k - 1);
    let b = paths_from(es, stop, next[k - 1], path, fuel);
    assert(paths_next(es, stop, next, path, fuel, k) == a + b);
    if j == k - 1 {
        let q = choose|q: int| 0 <= q < b.len() && b[q] == p;
        assert((a + b)[a.len() + q] == b[q]);
    } else {
        lemma_paths_next_has(es, stop, next, path, fuel, k - 1, j, p);
        let q = choose|q: int| 0 <= q < a.len() && a[q] == p;
        assert((a + b)[q] == a[q]);
    }
}

proof fn lemma_paths_from_has(es: Seq<Edge>, stop: u32, from: u32, path: Seq<u32>, fuel: nat, p: Seq<u32>)
    requires
        continues(es, stop, path, from, p),
        at_most_twice(p),
        forall|i: int| 0 <= i < p.len() - 1 ==> #[trigger] p[i] != stop,
        p.len() <= fuel + path.len() + 1,
    ensures
        paths_from(es, stop, from, path, fuel).contains(p),
    decreases fuel,
{
    let n = path.len() as int;
    if from == stop {
        assert(p.len() == n + 1);
        assert(p =~= path.push(from));
        assert(paths_from(es, stop, from, path, fuel)[0] == p);
    } else {
        let path2 = path.push(from);
        assert(p.subrange(0, n + 1) =~= path2);
        lemma_occurrences_prefix(p, n + 1, from);
        lemma_occurrences_push(path, from);
        assert(occurrences(p, from) <= 2);
        assert(n + 1 < p.len());
        let to = p[n + 1];
        assert(has_edge(es, p[n], p[n + 1]));
        lemma_targets_has(es, from, to);
        let next = targets(es, from);
        let j = choose|j: int| 0 <= j < next.len() && next[j] == to;
        assert forall|i: int| path2.len() <= i < p.len() - 1 implies #[trigger] has_edge(es, p[i], p[i + 1]) by {
            assert(path.len() <= i);
        }
        lemma_paths_from_has(es, stop, to, path2, (fuel - 1) as nat, p);
        lemma_paths_next_has(es, stop, next, path2, (fuel - 1) as nat, next.len() as int, j, p);
    }
}

/// Every walk that the graph with edges `es` has from `start` to `stop`,
/// reaching `stop` only at its end and passing no node more than twice, is an
/// execution path, where the search has at least as many steps as the walk.
pub proof fn law_execution_paths_complete(es: Seq<Edge>, stop: u32, start: u32, fuel: nat, p: Seq<u32>)
    requires
        p.len() > 0,
        p[0] == start,
        p.last() == stop,
        forall|i: int| 0 <= i < p.len() - 1 ==> #[trigger] has_edge(es, p[i], p[i + 1]),
        forall|i: int| 0 <= i < p.len() - 1 ==> #[trigger] p[i] != stop,
        at_most_twice(p),
        p.len() <= fuel + 1,
    ensures
        paths_from(es, stop, start, seq![], fuel).contains(p),
{
    assert(p.subrange(0, 0) =~= Seq::<u32>::empty());
    lemma_paths_from_has(es, stop, start, seq![], fuel, p);
}

} // verus!
