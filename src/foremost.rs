//! Foremost trees: grown greedily from a source, always through the crossing
//! arc with the smallest time label among those not deleted.
use vstd::prelude::*;
use vstd::set_lib::{lemma_int_range, lemma_len_subset, set_int_range};
use crate::graph::{ids_in_range, rows, same_shape, Graph};

verus! {

/// Slot `i` of the `r`-th reached vertex is an arc that may join the tree:
/// it is not deleted and leads out of `reached`.
pub open spec fn candidate(adj: Seq<Seq<usize>>, del: Seq<Seq<bool>>, reached: Seq<usize>, r: int, i: int) -> bool {
    &&& 0 <= r < reached.len()
    &&& 0 <= reached[r] < adj.len()
    &&& 0 <= i < adj[reached[r] as int].len()
    &&& !del[reached[r] as int][i]
    &&& !reached.contains(adj[reached[r] as int][i])
}

/// The label of slot `i` of the `r`-th reached vertex.
pub open spec fn label_at(lab: Seq<Seq<u64>>, reached: Seq<usize>, r: int, i: int) -> u64 {
    lab[reached[r] as int][i]
}

/// The candidate `(r, i)` has the smallest label of all candidates, and every
/// candidate met before it (reached vertices in order, then slots in order)
/// has a strictly larger one.
pub open spec fn is_best(
    adj: Seq<Seq<usize>>,
    lab: Seq<Seq<u64>>,
    del: Seq<Seq<bool>>,
    reached: Seq<usize>,
    r: int,
    i: int,
) -> bool {
    &&& candidate(adj, del, reached, r, i)
    &&& forall|r2: int, i2: int|
        #[trigger] candidate(adj, del, reached, r2, i2) ==> label_at(lab, reached, r, i)
            <= label_at(lab, reached, r2, i2) && ((r2 < r || (r2 == r && i2 < i)) ==> label_at(
            lab,
            reached,
            r,
            i,
        ) < label_at(lab, reached, r2, i2))
}

/// Step `k` of the tree took the best arc out of the first `k + 1` reached vertices.
pub open spec fn chosen_step(
    adj: Seq<Seq<usize>>,
    lab: Seq<Seq<u64>>,
    del: Seq<Seq<bool>>,
    reached: Seq<usize>,
    tree: Seq<(usize, usize)>,
    k: int,
) -> bool {
    exists|r: int, i: int|
        #[trigger] is_best(adj, lab, del, reached.take(k + 1), r, i) && tree[k] == (
            reached[r],
            adj[reached[r] as int][i],
        ) && reached[k + 1] == adj[reached[r] as int][i]
}

/// `reached` (in the order of joining) and `tree` (the arcs in the order they were
/// added) are the foremost tree from `source`: each step took the best crossing arc,
/// and no crossing arc is left at the end.
pub open spec fn is_foremost_tree(
    adj: Seq<Seq<usize>>,
    lab: Seq<Seq<u64>>,
    del: Seq<Seq<bool>>,
    source: usize,
    reached: Seq<usize>,
    tree: Seq<(usize, usize)>,
) -> bool {
    &&& reached.len() == tree.len() + 1
    &&& reached[0] == source
    &&& forall|k: int| 0 <= k < tree.len() ==> #[trigger] chosen_step(adj, lab, del, reached, tree, k)
    &&& forall|r: int, i: int| !#[trigger] candidate(adj, del, reached, r, i)
}

/// The result of a foremost tree construction.
pub struct ForemostTree {
    /// The reached vertices, source first, in the order they joined.
    pub reached: Vec<usize>,
    /// The `(parent, child)` arcs, in the order they were added.
    pub edges: Vec<(usize, usize)>,
}

/// `s` holds `n` or more distinct vertices below `n` only if it holds every such vertex.
proof fn lemma_pigeonhole(s: Seq<usize>, n: int, v: usize)
    requires
        forall|p: int, q: int| 0 <= p < q < s.len() ==> s[p] != s[q],
        forall|p: int| 0 <= p < s.len() ==> s[p] < n,
        v < n,
        !s.contains(v),
    ensures
        s.len() < n,
{
    let t = s.map_values(|x: usize| x as int);
    assert forall|p: int, q: int| 0 <= p < t.len() && 0 <= q < t.len() && p != q implies t[p] != t[q] by {
        if p < q {
            assert(s[p] != s[q]);
        } else {
            assert(s[q] != s[p]);
        }
    }
    assert(t.no_duplicates());
    t.unique_seq_to_set();
    lemma_int_range(0, n);
    let small = set_int_range(0, n).remove(v as int);
    assert forall|x: int| t.to_set().contains(x) implies small.contains(x) by {
        let p = choose|p: int| 0 <= p < t.len() && t[p] == x;
        assert(s[p] != v);
    }
    lemma_len_subset(t.to_set(), small);
}

/// Finds the best candidate arc out of `reached`, or `None` when no arc crosses.
fn find_best(
    g: &Graph,
    labels: &Vec<Vec<u64>>,
    deleted: &Vec<Vec<bool>>,
    reached: &Vec<usize>,
    in_tree: &Vec<bool>,
) -> (r: Option<(usize, usize)>)
    requires
        ids_in_range(g@, g.nodes as int),
        same_shape(g@, rows(*labels)),
        same_shape(g@, rows(*deleted)),
        in_tree@.len() == g.nodes,
        forall|v: int| 0 <= v < g.nodes ==> #[trigger] in_tree@[v] == reached@.contains(v as usize),
        forall|p: int| 0 <= p < reached@.len() ==> #[trigger] reached@[p] < g.nodes,
    ensures
        match r {
            None => forall|r2: int, i2: int| !#[trigger] candidate(g@, rows(*deleted), reached@, r2, i2),
            Some((br, bi)) => is_best(g@, rows(*labels), rows(*deleted), reached@, br as int, bi as int),
        },
{
    let ghost adj = g@;
    let ghost lab = rows(*labels);
    let ghost del = rows(*deleted);
    let mut best: Option<(usize, usize, u64)> = None;
    let mut r: usize = 0;
    while r < reached.len()
        invariant
            adj == g@,
            lab == rows(*labels),
            del == rows(*deleted),
            ids_in_range(adj, g.nodes as int),
            same_shape(adj, lab),
            same_shape(adj, del),
            in_tree@.len() == g.nodes,
            forall|v: int| 0 <= v < g.nodes ==> #[trigger] in_tree@[v] == reached@.contains(v as usize),
            forall|p: int| 0 <= p < reached@.len() ==> #[trigger] reached@[p] < g.nodes,
            r <= reached@.len(),
            match best {
                None => forall|r2: int, i2: int|
                    r2 < r ==> !#[trigger] candidate(adj, del, reached@, r2, i2),
                Some((br, bi, bl)) => {
                    &&& br < r
                    &&& candidate(adj, del, reached@, br as int, bi as int)
                    &&& bl == label_at(lab, reached@, br as int, bi as int)
                    &&& forall|r2: int, i2: int|
                        r2 < r && #[trigger] candidate(adj, del, reached@, r2, i2) ==> bl
                            <= label_at(lab, reached@, r2, i2) && ((r2 < br || (r2 == br && i2
                            < bi)) ==> bl < label_at(lab, reached@, r2, i2))
                },
            },
        decreases reached@.len() - r,
    {
        let u = reached[r];
        let nbrs = &g.edges[u];
        let lrow = &labels[u];
        let drow = &deleted[u];
        assert(lab[u as int].len() == adj[u as int].len());
        assert(del[u as int].len() == adj[u as int].len());
        let mut i: usize = 0;
        while i < nbrs.len()
            invariant
                adj == g@,
                lab == rows(*labels),
                del == rows(*deleted),
                ids_in_range(adj, g.nodes as int),
                same_shape(adj, lab),
                same_shape(adj, del),
                in_tree@.len() == g.nodes,
                forall|v: int| 0 <= v < g.nodes ==> #[trigger] in_tree@[v] == reached@.contains(v as usize),
                forall|p: int| 0 <= p < reached@.len() ==> #[trigger] reached@[p] < g.nodes,
                r < reached@.len(),
                u == reached@[r as int],
                nbrs@ == adj[u as int],
                lrow@ == lab[u as int],
                drow@ == del[u as int],
                i <= nbrs@.len(),
                match best {
                    None => forall|r2: int, i2: int|
                        (r2 < r || (r2 == r && i2 < i)) ==> !#[trigger] candidate(adj, del, reached@, r2, i2),
                    Some((br, bi, bl)) => {
                        &&& (br < r || (br == r && bi < i))
                        &&& candidate(adj, del, reached@, br as int, bi as int)
                        &&& bl == label_at(lab, reached@, br as int, bi as int)
                        &&& forall|r2: int, i2: int|
                            (r2 < r || (r2 == r && i2 < i)) && #[trigger] candidate(adj, del, reached@, r2, i2) ==> bl
                                <= label_at(lab, reached@, r2, i2) && ((r2 < br || (r2 == br && i2
                                < bi)) ==> bl < label_at(lab, reached@, r2, i2))
                    },
                },
            decreases nbrs@.len() - i,
        {
            let v = nbrs[i];
            assert(adj[u as int][i as int] < g.nodes);
            if !drow[i] && !in_tree[v] {
                let l = lrow[i];
                assert(candidate(adj, del, reached@, r as int, i as int));
                match best {
                    None => {
                        best = Some((r, i, l));
                    },
                    Some((_, _, bl)) => {
                        if l < bl {
                            best = Some((r, i, l));
                        }
                    },
                }
            }
            i = i + 1;
        }
        r = r + 1;
    }
    match best {
        None => None,
        Some((br, bi, _)) => {
            assert forall|r2: int, i2: int| #[trigger] candidate(adj, del, reached@, r2, i2) implies
                label_at(lab, reached@, br as int, bi as int) <= label_at(lab, reached@, r2, i2)
                && ((r2 < br || (r2 == br && i2 < bi)) ==> label_at(lab, reached@, br as int, bi as int)
                < label_at(lab, reached@, r2, i2)) by {}
            Some((br, bi))
        },
    }
}

/// Builds the foremost tree from `source`: starting from `{source}`, repeatedly
/// adds the non-deleted arc with the smallest label that leaves the reached set
/// (the first such arc met wins a tie), until no arc leaves it.
pub fn construct_foremost_tree(
    g: &Graph,
    labels: &Vec<Vec<u64>>,
    deleted: &Vec<Vec<bool>>,
    source: usize,
) -> (t: ForemostTree)
    requires
        ids_in_range(g@, g.nodes as int),
        same_shape(g@, rows(*labels)),
        same_shape(g@, rows(*deleted)),
        source < g.nodes,
    ensures
        is_foremost_tree(g@, rows(*labels), rows(*deleted), source, t.reached@, t.edges@),
{
    let ghost adj = g@;
    let ghost lab = rows(*labels);
    let ghost del = rows(*deleted);
    let n = g.nodes;
    let mut in_tree: Vec<bool> = Vec::new();
    let mut v: usize = 0;
    while v < n
        invariant
            v <= n,
            in_tree@.len() == v,
            forall|w: int| 0 <= w < v ==> #[trigger] in_tree@[w] == (w == source),
        decreases n - v,
    {
        in_tree.push(v == source);
        v = v + 1;
    }
    let mut reached: Vec<usize> = Vec::new();
    reached.push(source);
    let mut edges: Vec<(usize, usize)> = Vec::new();
    assert(forall|w: int| 0 <= w < n ==> #[trigger] in_tree@[w] == reached@.contains(w as usize)) by {
        assert forall|w: int| 0 <= w < n implies #[trigger] in_tree@[w] == reached@.contains(w as usize) by {
            if w == source {
                assert(reached@[0] == source);
            }
        }
    }
    while reached.len() < n
        invariant
            adj == g@,
            lab == rows(*labels),
            del == rows(*deleted),
            n == g.nodes,
            ids_in_range(adj, n as int),
            same_shape(adj, lab),
            same_shape(adj, del),
            source < n,
            in_tree@.len() == n,
            forall|w: int| 0 <= w < n ==> #[trigger] in_tree@[w] == reached@.contains(w as usize),
            forall|p: int| 0 <= p < reached@.len() ==> #[trigger] reached@[p] < n,
            forall|p: int, q: int| 0 <= p < q < reached@.len() ==> reached@[p] != reached@[q],
            1 <= reached@.len() <= n,
            reached@.len() == edges@.len() + 1,
            reached@[0] == source,
            forall|k: int| 0 <= k < edges@.len() ==> #[trigger] chosen_step(adj, lab, del, reached@, edges@, k),
        ensures
            forall|w: int| 0 <= w < n ==> #[trigger] in_tree@[w] == reached@.contains(w as usize),
            forall|p: int| 0 <= p < reached@.len() ==> #[trigger] reached@[p] < n,
            forall|p: int, q: int| 0 <= p < q < reached@.len() ==> reached@[p] != reached@[q],
            reached@.len() <= n,
            reached@.len() == edges@.len() + 1,
            reached@[0] == source,
            forall|k: int| 0 <= k < edges@.len() ==> #[trigger] chosen_step(adj, lab, del, reached@, edges@, k),
            reached@.len() < n ==> forall|r: int, i: int| !#[trigger] candidate(adj, del, reached@, r, i),
        decreases n - reached@.len(),
    {
        match find_best(g, labels, deleted, &reached, &in_tree) {
            None => {
                break;
            },
            Some((r, i)) => {
                let ghost old_reached = reached@;
                let ghost old_edges = edges@;
                let u = reached[r];
                let w = g.edges[u][i];
                assert(adj[u as int][i as int] < n);
                in_tree.set(w, true);
                reached.push(w);
                edges.push((u, w));
                assert(reached@.take(old_reached.len() as int) =~= old_reached);
                assert forall|x: int| 0 <= x < n implies #[trigger] in_tree@[x] == reached@.contains(x as usize) by {
                    if x == w {
                        assert(reached@[old_reached.len() as int] == w);
                    } else {
                        if old_reached.contains(x as usize) {
                            let p = choose|p: int| 0 <= p < old_reached.len() && old_reached[p] == x as usize;
                            assert(reached@[p] == x);
                        }
                        if reached@.contains(x as usize) {
                            let p = choose|p: int| 0 <= p < reached@.len() && reached@[p] == x as usize;
                            assert(old_reached[p] == x);
                        }
                    }
                }
                assert forall|p: int, q: int| 0 <= p < q < reached@.len() implies reached@[p] != reached@[q] by {
                    if q == old_reached.len() {
                        assert(old_reached[p] == reached@[p]);
                    }
                }
                assert forall|k: int| 0 <= k < edges@.len() implies #[trigger] chosen_step(adj, lab, del, reached@, edges@, k) by {
                    if k < old_edges.len() {
                        assert(chosen_step(adj, lab, del, old_reached, old_edges, k));
                        let (r0, i0) = choose|r0: int, i0: int|
                            #[trigger] is_best(adj, lab, del, old_reached.take(k + 1), r0, i0) && old_edges[k] == (
                                old_reached[r0],
                                adj[old_reached[r0] as int][i0],
                            ) && old_reached[k + 1] == adj[old_reached[r0] as int][i0];
                        assert(reached@.take(k + 1) =~= old_reached.take(k + 1));
                        assert(is_best(adj, lab, del, reached@.take(k + 1), r0, i0));
                    } else {
                        assert(reached@.take(k + 1) =~= old_reached);
                        assert(is_best(adj, lab, del, reached@.take(k + 1), r as int, i as int));
                    }
                }
            },
        }
    }
    if reached.len() == n {
        assert forall|r: int, i: int| !#[trigger] candidate(adj, del, reached@, r, i) by {
            if candidate(adj, del, reached@, r, i) {
                let x = adj[reached@[r] as int][i];
                lemma_pigeonhole(reached@, n as int, x);
            }
        }
    }
    ForemostTree { reached, edges }
}

/// Every arc slot left by `del1` is left by `del2` too.
pub open spec fn keeps_at_least(adj: Seq<Seq<usize>>, del1: Seq<Seq<bool>>, del2: Seq<Seq<bool>>) -> bool {
    forall|u: int, i: int|
        0 <= u < adj.len() && 0 <= i < adj[u].len() && !#[trigger] del1[u][i] ==> !del2[u][i]
}

/// The `k`-th vertex of a foremost tree under `del1` is reached by any foremost
/// tree from the same source under a mask `del2` that keeps at least as many arcs.
proof fn lemma_reached_within_step(
    adj: Seq<Seq<usize>>,
    lab1: Seq<Seq<u64>>,
    del1: Seq<Seq<bool>>,
    lab2: Seq<Seq<u64>>,
    del2: Seq<Seq<bool>>,
    source: usize,
    r1: Seq<usize>,
    t1: Seq<(usize, usize)>,
    r2: Seq<usize>,
    t2: Seq<(usize, usize)>,
    k: int,
)
    requires
        is_foremost_tree(adj, lab1, del1, source, r1, t1),
        is_foremost_tree(adj, lab2, del2, source, r2, t2),
        keeps_at_least(adj, del1, del2),
        0 <= k < r1.len(),
    ensures
        r2.contains(r1[k]),
    decreases k,
{
    if k == 0 {
        assert(r2[0] == r1[0]);
    } else {
        assert(chosen_step(adj, lab1, del1, r1, t1, k - 1));
        let (r, i) = choose|r: int, i: int|
            #[trigger] is_best(adj, lab1, del1, r1.take(k), r, i) && t1[k - 1] == (
                r1[r],
                adj[r1[r] as int][i],
            ) && r1[k] == adj[r1[r] as int][i];
        lemma_reached_within_step(adj, lab1, del1, lab2, del2, source, r1, t1, r2, t2, r);
        let u = r1[r];
        let q = choose|q: int| 0 <= q < r2.len() && r2[q] == u;
        assert(r1.take(k)[r] == u);
        assert(!del1[u as int][i]);
        assert(!candidate(adj, del2, r2, q, i));
    }
}

/// What a foremost tree reaches under `del1`, a foremost tree from the same source
/// reaches under any mask `del2` that keeps every arc `del1` keeps.
pub proof fn lemma_reached_within(
    adj: Seq<Seq<usize>>,
    lab1: Seq<Seq<u64>>,
    del1: Seq<Seq<bool>>,
    lab2: Seq<Seq<u64>>,
    del2: Seq<Seq<bool>>,
    source: usize,
    r1: Seq<usize>,
    t1: Seq<(usize, usize)>,
    r2: Seq<usize>,
    t2: Seq<(usize, usize)>,
)
    requires
        is_foremost_tree(adj, lab1, del1, source, r1, t1),
        is_foremost_tree(adj, lab2, del2, source, r2, t2),
        keeps_at_least(adj, del1, del2),
    ensures
        r1.to_set().subset_of(r2.to_set()),
{
    assert forall|v: usize| r1.to_set().contains(v) implies r2.to_set().contains(v) by {
        let k = choose|k: int| 0 <= k < r1.len() && r1[k] == v;
        lemma_reached_within_step(adj, lab1, del1, lab2, del2, source, r1, t1, r2, t2, k);
    }
}

/// The set of vertices that the foremost tree from `source` reaches.
pub open spec fn foremost_reach(
    adj: Seq<Seq<usize>>,
    lab: Seq<Seq<u64>>,
    del: Seq<Seq<bool>>,
    source: usize,
) -> Set<usize> {
    (choose|rt: (Seq<usize>, Seq<(usize, usize)>)| is_foremost_tree(adj, lab, del, source, rt.0, rt.1)).0.to_set()
}

/// Every foremost tree from a source reaches the same set of vertices.
pub proof fn lemma_reach_is(
    adj: Seq<Seq<usize>>,
    lab: Seq<Seq<u64>>,
    del: Seq<Seq<bool>>,
    source: usize,
    reached: Seq<usize>,
    tree: Seq<(usize, usize)>,
)
    requires
        is_foremost_tree(adj, lab, del, source, reached, tree),
    ensures
        foremost_reach(adj, lab, del, source) == reached.to_set(),
{
    let w = (reached, tree);
    assert(is_foremost_tree(adj, lab, del, source, w.0, w.1));
    let c = choose|rt: (Seq<usize>, Seq<(usize, usize)>)| is_foremost_tree(adj, lab, del, source, rt.0, rt.1);
    lemma_reached_within(adj, lab, del, lab, del, source, c.0, c.1, reached, tree);
    lemma_reached_within(adj, lab, del, lab, del, source, reached, tree, c.0, c.1);
    assert(foremost_reach(adj, lab, del, source) =~= reached.to_set());
}

/// The vertices of a foremost tree are distinct, so it reaches as many
/// vertices as its sequence of reached vertices is long.
pub proof fn lemma_reached_distinct(
    adj: Seq<Seq<usize>>,
    lab: Seq<Seq<u64>>,
    del: Seq<Seq<bool>>,
    source: usize,
    reached: Seq<usize>,
    tree: Seq<(usize, usize)>,
)
    requires
        is_foremost_tree(adj, lab, del, source, reached, tree),
    ensures
        reached.no_duplicates(),
        reached.to_set().len() == reached.len(),
{
    assert forall|p: int, q: int| 0 <= p < reached.len() && 0 <= q < reached.len() && p != q implies reached[p] != reached[q] by {
        let hi = if p < q { q } else { p };
        let lo = if p < q { p } else { q };
        assert(chosen_step(adj, lab, del, reached, tree, hi - 1));
        let (r, i) = choose|r: int, i: int|
            #[trigger] is_best(adj, lab, del, reached.take(hi), r, i) && tree[hi - 1] == (
                reached[r],
                adj[reached[r] as int][i],
            ) && reached[hi] == adj[reached[r] as int][i];
        assert(reached.take(hi)[r] == reached[r]);
        assert(reached.take(hi)[lo] == reached[lo]);
    }
    reached.unique_seq_to_set();
}

/// The parent of arc `k` joined the tree no later than step `k`, before the child.
pub open spec fn parent_joined_before(reached: Seq<usize>, tree: Seq<(usize, usize)>, k: int) -> bool {
    exists|p: int| 0 <= p <= k && #[trigger] reached[p] == tree[k].0
}

/// A foremost tree is a tree on the vertices it reaches: it has one arc fewer than
/// it has vertices, each arc's parent joined before its child (so there is no
/// cycle), the source has no incoming arc, and every other reached vertex has
/// exactly one.
pub proof fn lemma_tree_valid(
    adj: Seq<Seq<usize>>,
    lab: Seq<Seq<u64>>,
    del: Seq<Seq<bool>>,
    source: usize,
    reached: Seq<usize>,
    tree: Seq<(usize, usize)>,
)
    requires
        is_foremost_tree(adj, lab, del, source, reached, tree),
    ensures
        tree.len() == reached.to_set().len() - 1,
        forall|k: int| 0 <= k < tree.len() ==> #[trigger] tree[k].1 == reached[k + 1],
        forall|k: int| 0 <= k < tree.len() ==> #[trigger] parent_joined_before(reached, tree, k),
        forall|k: int| 0 <= k < tree.len() ==> #[trigger] tree[k].1 != source,
        forall|v: usize|
            #[trigger] reached.to_set().contains(v) && v != source ==> exists|k: int|
                0 <= k < tree.len() && #[trigger] tree[k].1 == v,
        forall|k1: int, k2: int|
            0 <= k1 < tree.len() && 0 <= k2 < tree.len() && #[trigger] tree[k1].1 == #[trigger] tree[k2].1
                ==> k1 == k2,
{
    lemma_reached_distinct(adj, lab, del, source, reached, tree);
    assert forall|k: int| 0 <= k < tree.len() implies #[trigger] tree[k].1 == reached[k + 1]
        && parent_joined_before(reached, tree, k) by {
        assert(chosen_step(adj, lab, del, reached, tree, k));
        let (r, i) = choose|r: int, i: int|
            #[trigger] is_best(adj, lab, del, reached.take(k + 1), r, i) && tree[k] == (
                reached[r],
                adj[reached[r] as int][i],
            ) && reached[k + 1] == adj[reached[r] as int][i];
        assert(reached.take(k + 1)[r] == reached[r]);
        assert(0 <= r <= k && reached[r] == tree[k].0);
        assert(parent_joined_before(reached, tree, k));
    }
    assert forall|k: int| 0 <= k < tree.len() implies #[trigger] parent_joined_before(reached, tree, k) by {
        assert(tree[k].1 == reached[k + 1] && parent_joined_before(reached, tree, k));
    }
    assert forall|k: int| 0 <= k < tree.len() implies #[trigger] tree[k].1 != source by {
        assert(reached[k + 1] != reached[0]);
    }
    assert forall|v: usize| #[trigger] reached.to_set().contains(v) && v != source implies exists|k: int|
        0 <= k < tree.len() && #[trigger] tree[k].1 == v by {
        let p = choose|p: int| 0 <= p < reached.len() && reached[p] == v;
        assert(tree[p - 1].1 == reached[p]);
    }
    assert forall|k1: int, k2: int|
        0 <= k1 < tree.len() && 0 <= k2 < tree.len() && #[trigger] tree[k1].1 == #[trigger] tree[k2].1 implies k1 == k2 by {
        assert(tree[k1].1 == reached[k1 + 1]);
        assert(tree[k2].1 == reached[k2 + 1]);
    }
}

} // verus!
