//! Every simple program-order path between two events.
use crate::aeg::AbstractEventGraph;
use crate::builder::{all_below, vec_contains};
use crate::graph::{node_count, GraphView};
use vstd::prelude::*;

verus! {

/// The current path of the search, in order; each node once.
pub type PathSet = indexmap::IndexSet<usize, std::collections::hash_map::RandomState>;

#[verifier::external_type_specification]
#[verifier::external_body]
#[verifier::reject_recursive_types(T)]
#[verifier::reject_recursive_types(S)]
pub struct ExIndexSet<T, S>(indexmap::IndexSet<T, S>);

/// The items of a path set, in insertion order.
pub uninterp spec fn path_items(s: PathSet) -> Seq<usize>;

/// Relies on `IndexSet::from_iter`: the set holds the one item.
#[verifier::external_body]
fn path_new(from: usize) -> (r: PathSet)
    ensures
        path_items(r) == seq![from],
{
    indexmap::IndexSet::from_iter(Some(from))
}

/// Relies on `IndexSet::len`: the number of items.
#[verifier::external_body]
fn set_len(s: &PathSet) -> (n: usize)
    ensures
        n == path_items(*s).len(),
{
    s.len()
}

/// Relies on `IndexSet::contains`: whether the item is in the set.
#[verifier::external_body]
fn set_contains(s: &PathSet, x: usize) -> (r: bool)
    ensures
        r == path_items(*s).contains(x),
{
    s.contains(&x)
}

/// Relies on `IndexSet::insert`: a new item goes at the end; an item
/// already there leaves the set unchanged.
#[verifier::external_body]
fn set_insert(s: &mut PathSet, x: usize) -> (r: bool)
    ensures
        path_items(*old(s)).contains(x) ==> !r && path_items(*final(s)) == path_items(*old(s)),
        !path_items(*old(s)).contains(x) ==> r && path_items(*final(s)) == path_items(*old(s)).push(x),
{
    s.insert(x)
}

/// Relies on `IndexSet::pop`: the last item is removed and returned.
#[verifier::external_body]
fn set_pop(s: &mut PathSet) -> (r: Option<usize>)
    ensures
        path_items(*old(s)).len() == 0 ==> r is None && path_items(*final(s)) == path_items(*old(s)),
        path_items(*old(s)).len() > 0 ==> r == Some(path_items(*old(s)).last()) && path_items(*final(s))
            == path_items(*old(s)).drop_last(),
{
    s.pop()
}

/// Relies on indexing an `IndexSet` by position: the item at `i`, which
/// must be in range.
#[verifier::external_body]
fn set_at(s: &PathSet, i: usize) -> (r: usize)
    requires
        i < path_items(*s).len(),
    ensures
        r == path_items(*s)[i as int],
{
    s[i]
}

/// Relies on `IndexSet::iter`: the items in order.
#[verifier::external_body]
fn set_to_vec(s: &PathSet) -> (r: Vec<usize>)
    ensures
        r@ == path_items(*s),
{
    s.iter().copied().collect()
}

/// `p` is a simple po path from `from` to `to`: it starts and ends there,
/// each step is a po edge, and no node repeats.
pub open spec fn is_simple_po_path(g: GraphView, p: Seq<usize>, from: usize, to: usize) -> bool {
    &&& p.len() >= 2
    &&& p[0] == from
    &&& p.last() == to
    &&& g.is_po_walk(p)
    &&& p.no_duplicates()
}

/// The paths that `explore` may add: po paths from `from` to `to` whose
/// node count lies in `[lo, hi]`, simple when their ends differ.
pub open spec fn path_ok(g: GraphView, p: Seq<usize>, from: usize, to: usize, lo: int, hi: int) -> bool {
    &&& p.len() >= 2
    &&& p[0] == from
    &&& p.last() == to
    &&& g.is_po_walk(p)
    &&& from != to ==> p.no_duplicates()
    &&& lo <= p.len() <= hi
}

/// `q` is a path that the search from `path` may find: it extends `path`
/// along po edges to `to`, through nodes that are neither `to` nor seen
/// before on it, and has between `lo` and `hi` nodes before `to`.
pub open spec fn completes(g: GraphView, path: Seq<usize>, q: Seq<usize>, to: usize, lo: int, hi: int) -> bool {
    &&& q.len() > path.len()
    &&& q.subrange(0, path.len() as int) == path
    &&& q.last() == to
    &&& g.is_po_walk(q)
    &&& forall|i: int| path.len() <= i < q.len() - 1 ==> #[trigger] q[i] != to && !q.subrange(0, i).contains(q[i])
    &&& lo <= q.len() - 1 <= hi
}

/// The paths of `out` from position `lo` on each extend `p` by at least
/// one node, and no two of them are equal.
pub open spec fn fresh_extensions(out: Seq<Vec<usize>>, lo: int, p: Seq<usize>) -> bool {
    &&& forall|a: int|
        lo <= a < out.len() ==> (#[trigger] out[a]@).len() > p.len() && out[a]@.subrange(0, p.len() as int) == p
    &&& forall|a: int, b: int|
        lo <= a < out.len() && lo <= b < out.len() && a != b ==> #[trigger] out[a]@ != #[trigger] out[b]@
}

proof fn lemma_extension_of_push(x: Seq<usize>, p: Seq<usize>, c: usize)
    requires
        x.len() > p.len() + 1,
        x.subrange(0, (p.len() + 1) as int) == p.push(c),
    ensures
        x.subrange(0, p.len() as int) == p,
        x[p.len() as int] == c,
{
    assert(x.subrange(0, (p.len() + 1) as int)[p.len() as int] == c);
    assert(x.subrange(0, p.len() as int) =~= p) by {
        assert forall|j: int| 0 <= j < p.len() implies x.subrange(0, p.len() as int)[j] == p[j] by {
            assert(x.subrange(0, (p.len() + 1) as int)[j] == p.push(c)[j]);
        }
    }
}

/// Some of the first `i` children is `c`.
pub open spec fn seen_before(children: Seq<usize>, i: int, c: usize) -> bool {
    exists|j: int| 0 <= j < i && children[j] == c
}

/// `q` is one of the paths of `out`.
pub open spec fn listed(out: Seq<Vec<usize>>, q: Seq<usize>) -> bool {
    exists|k: int| 0 <= k < out.len() && #[trigger] out[k]@ == q
}

/// A path that goes on from `path` through `c` goes on from `path` + `c`.
proof fn lemma_completes_step(g: GraphView, path: Seq<usize>, q: Seq<usize>, to: usize, lo: int, hi: int)
    requires
        completes(g, path, q, to, lo, hi),
        q[path.len() as int] != to,
    ensures
        completes(g, path.push(q[path.len() as int]), q, to, lo, hi),
        !path.contains(q[path.len() as int]),
{
    let c = q[path.len() as int];
    let p2 = path.push(c);
    assert(path.len() < q.len() - 1) by {
        if path.len() == q.len() - 1 {
            assert(q[path.len() as int] == q.last());
        }
    }
    assert(q.subrange(0, p2.len() as int) =~= p2) by {
        assert forall|i: int| 0 <= i < p2.len() implies q.subrange(0, p2.len() as int)[i] == p2[i] by {
            if i < path.len() {
                assert(q.subrange(0, path.len() as int)[i] == path[i]);
            }
        }
    }
    assert(q.subrange(0, path.len() as int) == path);
    assert(!q.subrange(0, path.len() as int).contains(q[path.len() as int]));
}

proof fn lemma_listed_grows(a: Seq<Vec<usize>>, b: Seq<Vec<usize>>, q: Seq<usize>)
    requires
        listed(a, q),
        a.len() <= b.len(),
        b.subrange(0, a.len() as int) == a,
    ensures
        listed(b, q),
{
    let k = choose|k: int| 0 <= k < a.len() && #[trigger] a[k]@ == q;
    assert(b.subrange(0, a.len() as int)[k] == a[k]);
}

proof fn lemma_extend_path(g: GraphView, path: Seq<usize>, x: usize)
    requires
        path.len() >= 1,
        g.is_po_walk(path),
        g.po_edge(path.last(), x),
        path.no_duplicates(),
    ensures
        g.is_po_walk(path.push(x)),
        !path.contains(x) ==> path.push(x).no_duplicates(),
{
    let q = path.push(x);
    assert forall|i: int| 0 <= i < q.len() - 1 implies #[trigger] g.po_edge(q[i], q[i + 1]) by {
        if i < path.len() - 1 {
            assert(g.po_edge(path[i], path[i + 1]));
        } else {
            assert(q[i] == path.last());
        }
    }
    if !path.contains(x) {
        assert forall|a: int, b: int| 0 <= a < q.len() && 0 <= b < q.len() && a != b implies q[a] != q[b] by {
            if a < path.len() && b < path.len() {
            } else if a < path.len() {
                assert(path.contains(q[a]));
            } else {
                assert(path.contains(q[b]));
            }
        }
    }
}

/// Continue the simple paths that start with `path`, adding each one that
/// reaches `to` to `out`.
fn explore(
    aeg: &AbstractEventGraph,
    path: &mut PathSet,
    to: usize,
    min_length: usize,
    max_length: usize,
    out: &mut Vec<Vec<usize>>,
    depth: usize,
)
    requires
        depth == path_items(*old(path)).len(),
        aeg.wf(),
        path_items(*old(path)).len() >= 1,
        path_items(*old(path)).len() <= max_length,
        all_below(path_items(*old(path)), aeg.gv().nodes.len()),
        aeg.gv().is_po_walk(path_items(*old(path))),
        path_items(*old(path)).no_duplicates(),
        path_items(*old(path))[0] != to ==> !path_items(*old(path)).contains(to),
        forall|k: int|
            0 <= k < old(out)@.len() ==> path_ok(
                aeg.gv(),
                #[trigger] old(out)@[k]@,
                path_items(*old(path))[0],
                to,
                min_length + 1,
                max_length + 1,
            ),
    ensures
        path_items(*final(path)) == path_items(*old(path)),
        forall|k: int|
            0 <= k < final(out)@.len() ==> path_ok(
                aeg.gv(),
                #[trigger] final(out)@[k]@,
                path_items(*old(path))[0],
                to,
                min_length + 1,
                max_length + 1,
            ),
        old(out)@.len() <= final(out)@.len(),
        final(out)@.subrange(0, old(out)@.len() as int) == old(out)@,
        forall|q: Seq<usize>|
            #[trigger] completes(aeg.gv(), path_items(*old(path)), q, to, min_length as int, max_length as int) ==> listed(final(out)@, q),
        fresh_extensions(final(out)@, old(out)@.len() as int, path_items(*old(path))),
    decreases max_length - depth,
{
    let ghost p0 = path_items(*path);
    let ghost o0 = out@;
    let ghost from = path_items(*path)[0];
    let ghost g = aeg.gv();
    let ghost lo = min_length as int;
    let ghost hi = max_length as int;
    let last = set_at(path, set_len(path) - 1);
    let children = aeg.close_po_neighbors(last);
    if set_len(path) < max_length {
        let mut i: usize = 0;
        while i < children.len()
            invariant
                aeg.wf(),
                g == aeg.gv(),
                path_items(*path) == p0,
                p0.len() >= 1,
                p0.len() < max_length,
                depth == p0.len(),
                from == p0[0],
                last == p0.last(),
                all_below(p0, g.nodes.len()),
                all_below(children@, g.nodes.len()),
                forall|v: usize| #[trigger] children@.contains(v) <==> g.po_edge(last, v),
                g.is_po_walk(p0),
                p0.no_duplicates(),
                from != to ==> !p0.contains(to),
                i <= children@.len(),
                forall|k: int|
                    0 <= k < out@.len() ==> path_ok(
                        g,
                        #[trigger] out@[k]@,
                        from,
                        to,
                        min_length + 1,
                        max_length + 1,
                    ),
                o0 == old(out)@,
                lo == min_length,
                hi == max_length,
                o0.len() <= out@.len(),
                out@.subrange(0, o0.len() as int) == o0,
                forall|q: Seq<usize>|
                    #[trigger] completes(g, p0, q, to, lo, hi) && seen_before(children@, i as int, q[p0.len() as int])
                        ==> listed(out@, q),
                children@.no_duplicates(),
                fresh_extensions(out@, o0.len() as int, p0),
                forall|a: int| o0.len() <= a < out@.len() ==> seen_before(children@, i as int, #[trigger] out@[a]@[p0.len() as int]),
            decreases children@.len() - i,
        {
            let child = children[i];
            let ghost out_before = out@;
            proof {
                assert(children@.contains(child));
            }
            if child == to {
                if set_len(path) >= min_length {
                    let mut p = set_to_vec(path);
                    p.push(to);
                    proof {
                        lemma_extend_path(g, p0, to);
                        assert(p@ == p0.push(to));
                    }
                    out.push(p);
                    proof {
                        assert(out@.subrange(0, out_before.len() as int) =~= out_before);
                        assert(out@.subrange(0, o0.len() as int) =~= o0) by {
                            assert(out_before.subrange(0, o0.len() as int) == o0);
                        }
                        assert(out@[out_before.len() as int]@ == p0.push(to));
                        assert(out@[out_before.len() as int]@.subrange(0, p0.len() as int) =~= p0);
                        assert(out@[out_before.len() as int]@[p0.len() as int] == child);
                    }
                }
                proof {
                    assert(out@.subrange(0, out_before.len() as int) =~= out_before);
                    assert forall|q: Seq<usize>|
                        #[trigger] completes(g, p0, q, to, lo, hi) && seen_before(children@, i + 1, q[p0.len() as int])
                            implies listed(out@, q) by {
                        if seen_before(children@, i as int, q[p0.len() as int]) {
                            lemma_listed_grows(out_before, out@, q);
                        } else {
                            assert(q[p0.len() as int] == to);
                            assert(q.len() == p0.len() + 1) by {
                                if q.len() > p0.len() + 1 {
                                    assert(q[p0.len() as int] != to);
                                }
                            }
                            assert(q =~= p0.push(to)) by {
                                assert forall|k: int| 0 <= k < q.len() implies q[k] == p0.push(to)[k] by {
                                    if k < p0.len() {
                                        assert(q.subrange(0, p0.len() as int)[k] == p0[k]);
                                    }
                                }
                            }
                            assert(out@[out_before.len() as int]@ == q);
                        }
                    }
                }
            } else if !set_contains(path, child) {
                set_insert(path, child);
                proof {
                    lemma_extend_path(g, p0, child);
                    assert(path_items(*path)[0] == from);
                    assert(from != to ==> !path_items(*path).contains(to)) by {
                        if from != to && path_items(*path).contains(to) {
                            let j = choose|j: int| 0 <= j < path_items(*path).len() && path_items(*path)[j] == to;
                            assert(j < p0.len());
                            assert(p0[j] == to);
                        }
                    }
                    assert forall|k: int| 0 <= k < path_items(*path).len() implies #[trigger] path_items(*path)[k] < g.nodes.len() by {
                        if k < p0.len() {
                            assert(path_items(*path)[k] == p0[k]);
                        }
                    }
                }
                assert(path_items(*path).len() == p0.len() + 1);
                let ghost p1 = path_items(*path);
                explore(aeg, path, to, min_length, max_length, out, depth + 1);
                set_pop(path);
                proof {
                    assert(path_items(*path) =~= p0);
                    assert(p1 == p0.push(child));
                    assert forall|a: int| out_before.len() <= a < out@.len() implies (#[trigger] out@[a]@).len() > p0.len()
                        && out@[a]@.subrange(0, p0.len() as int) == p0 && out@[a]@[p0.len() as int] == child by {
                        lemma_extension_of_push(out@[a]@, p0, child);
                    }
                    assert(out@.subrange(0, o0.len() as int) =~= o0) by {
                        assert(out@.subrange(0, out_before.len() as int) == out_before);
                        assert(out_before.subrange(0, o0.len() as int) == o0);
                        assert forall|k: int| 0 <= k < o0.len() implies out@.subrange(0, o0.len() as int)[k] == o0[k] by {
                            assert(out@.subrange(0, out_before.len() as int)[k] == out_before[k]);
                            assert(out_before.subrange(0, o0.len() as int)[k] == o0[k]);
                        }
                    }
                    assert forall|q: Seq<usize>|
                        #[trigger] completes(g, p0, q, to, lo, hi) && seen_before(children@, i + 1, q[p0.len() as int])
                            implies listed(out@, q) by {
                        if seen_before(children@, i as int, q[p0.len() as int]) {
                            lemma_listed_grows(out_before, out@, q);
                        } else {
                            assert(q[p0.len() as int] == child);
                            lemma_completes_step(g, p0, q, to, lo, hi);
                            assert(p1 == p0.push(child));
                            assert(completes(g, p1, q, to, lo, hi));
                        }
                    }
                }
            } else {
                proof {
                    assert forall|q: Seq<usize>|
                        #[trigger] completes(g, p0, q, to, lo, hi) && seen_before(children@, i + 1, q[p0.len() as int])
                            implies listed(out@, q) by {
                        if !seen_before(children@, i as int, q[p0.len() as int]) {
                            assert(q[p0.len() as int] == child);
                            lemma_completes_step(g, p0, q, to, lo, hi);
                        }
                    }
                }
            }
            proof {
                let ob = out_before.len() as int;
                let plen = p0.len() as int;
                assert(out@.len() >= ob && out@.subrange(0, ob) == out_before) by {
                    if out@ == out_before {
                        assert(out@.subrange(0, ob) =~= out_before);
                    }
                }
                assert(fresh_extensions(out@, ob, p0) && forall|a: int| ob <= a < out@.len() ==> #[trigger] out@[a]@[plen] == child);
                assert forall|a: int| o0.len() <= a < out@.len() implies seen_before(children@, i + 1, #[trigger] out@[a]@[plen]) by {
                    if a < ob {
                        assert(out@[a] == out_before[a]) by {
                            assert(out@.subrange(0, ob)[a] == out_before[a]);
                        }
                        assert(seen_before(children@, i as int, out_before[a]@[plen]));
                        let j = choose|j: int| 0 <= j < i && children@[j] == out_before[a]@[plen];
                    } else {
                        assert(children@[i as int] == out@[a]@[plen]);
                    }
                }
                assert forall|a: int| o0.len() <= a < out@.len() implies (#[trigger] out@[a]@).len() > p0.len()
                    && out@[a]@.subrange(0, p0.len() as int) == p0 by {
                    if a < ob {
                        assert(out@.subrange(0, ob)[a] == out_before[a]);
                    }
                }
                assert forall|a: int, b: int|
                    o0.len() <= a < out@.len() && o0.len() <= b < out@.len() && a != b implies #[trigger] out@[a]@
                    != #[trigger] out@[b]@ by {
                    if a < ob && b < ob {
                        assert(out@.subrange(0, ob)[a] == out_before[a]);
                        assert(out@.subrange(0, ob)[b] == out_before[b]);
                    } else if a < ob {
                        assert(out@.subrange(0, ob)[a] == out_before[a]);
                        assert(seen_before(children@, i as int, out_before[a]@[plen]));
                        let j = choose|j: int| 0 <= j < i && children@[j] == out_before[a]@[plen];
                        assert(children@[j] != children@[i as int]);
                    } else if b < ob {
                        assert(out@.subrange(0, ob)[b] == out_before[b]);
                        assert(seen_before(children@, i as int, out_before[b]@[plen]));
                        let j = choose|j: int| 0 <= j < i && children@[j] == out_before[b]@[plen];
                        assert(children@[j] != children@[i as int]);
                    }
                }
            }
            i += 1;
        }
        proof {
            assert forall|q: Seq<usize>| #[trigger] completes(g, p0, q, to, lo, hi) implies listed(out@, q) by {
                let plen = p0.len() as int;
                assert(q.subrange(0, plen)[plen - 1] == p0[plen - 1]);
                let j = plen - 1;
                assert(g.po_edge(q[j], q[j + 1]));
                assert(children@.contains(q[plen]));
                let m = choose|m: int| 0 <= m < children@.len() && children@[m] == q[plen];
                assert(seen_before(children@, children@.len() as int, q[plen]));
            }
        }
    } else {
        if vec_contains(&children, to) && set_len(path) >= min_length {
            let mut p = set_to_vec(path);
            p.push(to);
            proof {
                lemma_extend_path(g, p0, to);
                assert(p@ == p0.push(to));
            }
            out.push(p);
            proof {
                assert(out@.subrange(0, o0.len() as int) =~= o0);
                assert(out@[o0.len() as int]@ == p0.push(to));
                assert(out@[o0.len() as int]@.subrange(0, p0.len() as int) =~= p0);
            }
        } else {
            proof {
                assert(out@.subrange(0, o0.len() as int) =~= o0);
            }
        }
        proof {
            assert forall|q: Seq<usize>| #[trigger] completes(g, p0, q, to, lo, hi) implies listed(out@, q) by {
                let plen = p0.len() as int;
                assert(q.len() == plen + 1);
                assert(q.subrange(0, plen)[plen - 1] == p0[plen - 1]);
                let j = plen - 1;
                assert(g.po_edge(q[j], q[j + 1]));
                assert(q[plen] == to);
                assert(children@.contains(to));
                assert(q =~= p0.push(to)) by {
                    assert forall|k: int| 0 <= k < q.len() implies q[k] == p0.push(to)[k] by {
                        if k < plen {
                            assert(q.subrange(0, plen)[k] == p0[k]);
                        }
                    }
                }
                assert(out@[o0.len() as int]@ == q);
            }
        }
    }
}

/// Every simple po path from `from` to `to` with at least
/// `min_intermediate_nodes` nodes between its ends, and at most
/// `max_intermediate_nodes` if given, else as many as the graph allows;
/// in depth-first order.
pub fn all_simple_po_paths(
    aeg: &AbstractEventGraph,
    from: usize,
    to: usize,
    min_intermediate_nodes: usize,
    max_intermediate_nodes: Option<usize>,
) -> (r: Vec<Vec<usize>>)
    requires
        aeg.wf(),
        from < aeg.gv().nodes.len(),
        min_intermediate_nodes < usize::MAX,
        max_intermediate_nodes matches Some(l) ==> l < usize::MAX,
    ensures
        forall|k: int|
            0 <= k < r@.len() ==> (#[trigger] r@[k]@).len() >= 2 && r@[k]@[0] == from && r@[k]@.last() == to
                && aeg.gv().is_po_walk(r@[k]@),
        from != to ==> forall|k: int|
            0 <= k < r@.len() ==> #[trigger] is_simple_po_path(aeg.gv(), r@[k]@, from, to),
        forall|k: int|
            0 <= k < r@.len() ==> (#[trigger] r@[k]@).len() >= min_intermediate_nodes + 2,
        max_intermediate_nodes matches Some(l) ==> forall|k: int|
            0 <= k < r@.len() ==> (#[trigger] r@[k]@).len() <= l + 2,
        forall|a: int, b: int| 0 <= a < r@.len() && 0 <= b < r@.len() && a != b ==> #[trigger] r@[a]@ != #[trigger] r@[b]@,
        max_intermediate_nodes is None && from != to ==> forall|k: int|
            0 <= k < r@.len() ==> (#[trigger] r@[k]@).len() <= aeg.gv().nodes.len(),
        from != to ==> forall|q: Seq<usize>|
            #[trigger] is_simple_po_path(aeg.gv(), q, from, to) && q.len() >= min_intermediate_nodes + 2
                && q.len() <= match max_intermediate_nodes {
                Some(l) => l + 2,
                None => aeg.gv().nodes.len() as int,
            } ==> listed(r@, q),
{
    let n = node_count(&aeg.graph);
    let max_length = match max_intermediate_nodes {
        Some(l) => l + 1,
        None => n - 1,
    };
    let min_length = min_intermediate_nodes + 1;
    let mut out: Vec<Vec<usize>> = Vec::new();
    let mut path = path_new(from);
    proof {
        assert forall|i: int| 0 <= i < path_items(path).len() - 1 implies #[trigger] aeg.gv().po_edge(
            path_items(path)[i],
            path_items(path)[i + 1],
        ) by {}
        assert(from != to ==> !path_items(path).contains(to)) by {
            if path_items(path).contains(to) {
                let j = choose|j: int| 0 <= j < path_items(path).len() && path_items(path)[j] == to;
                assert(j == 0);
            }
        }
    }
    if max_length > 0 {
        let ghost p1 = path_items(path);
        explore(aeg, &mut path, to, min_length, max_length, &mut out, 1);
        proof {
            let g = aeg.gv();
            assert forall|q: Seq<usize>|
                #[trigger] is_simple_po_path(g, q, from, to) && from != to && q.len() >= min_intermediate_nodes + 2
                    && q.len() <= match max_intermediate_nodes {
                    Some(l) => l + 2,
                    None => g.nodes.len() as int,
                } implies listed(out@, q) by {
                assert(q.subrange(0, 1) =~= p1);
                assert forall|i: int| 1 <= i < q.len() - 1 implies #[trigger] q[i] != to && !q.subrange(0, i).contains(q[i]) by {
                    assert(q[q.len() - 1] == to);
                    if q.subrange(0, i).contains(q[i]) {
                        let j = choose|j: int| 0 <= j < i && q.subrange(0, i)[j] == q[i];
                        assert(q[j] == q[i]);
                    }
                }
                assert(completes(g, p1, q, to, min_length as int, max_length as int));
            }
        }
    } else {
        let children = aeg.close_po_neighbors(from);
        if vec_contains(&children, to) && min_length <= 1 {
            let mut path = set_to_vec(&path);
            path.push(to);
            proof {
                lemma_extend_path(aeg.gv(), seq![from], to);
                assert(path@ == seq![from].push(to));
                assert(path@.len() == 2);
                assert(from != to ==> path@.no_duplicates());
            }
            out.push(path);
        }
    }
    proof {
        if max_length > 0 {
            assert forall|k: int| 0 <= k < out@.len() implies (#[trigger] out@[k]@).len()
                >= min_intermediate_nodes + 2 by {
                assert(path_ok(aeg.gv(), out@[k]@, from, to, min_length + 1, max_length + 1));
            }
        }
    }
    out
}

} // verus!
