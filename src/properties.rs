//! The four reachability properties of a labelled, percolated graph, and the
//! laws that relate them.
use vstd::prelude::*;
use crate::foremost::{
    construct_foremost_tree, foremost_reach, is_foremost_tree, keeps_at_least, lemma_reach_is,
    lemma_reached_distinct, lemma_reached_within,
};
use crate::graph::{ids_in_range, rows, same_shape, Graph};
use crate::percolation::mask_of;

verus! {

/// The foremost tree from `s` reaches every vertex.
pub open spec fn reaches_all(adj: Seq<Seq<usize>>, lab: Seq<Seq<u64>>, del: Seq<Seq<bool>>, s: usize) -> bool {
    foremost_reach(adj, lab, del, s).len() == adj.len()
}

/// Vertex 1 is foremost-reachable from vertex 0.
pub open spec fn holds_one(adj: Seq<Seq<usize>>, lab: Seq<Seq<u64>>, del: Seq<Seq<bool>>) -> bool {
    adj.len() >= 2 && foremost_reach(adj, lab, del, 0).contains(1)
}

/// Some vertex foremost-reaches the whole graph.
pub open spec fn holds_two(adj: Seq<Seq<usize>>, lab: Seq<Seq<u64>>, del: Seq<Seq<bool>>) -> bool {
    exists|s: usize| s < adj.len() && #[trigger] reaches_all(adj, lab, del, s)
}

/// Vertex 0 foremost-reaches the whole graph.
pub open spec fn holds_three(adj: Seq<Seq<usize>>, lab: Seq<Seq<u64>>, del: Seq<Seq<bool>>) -> bool {
    adj.len() >= 1 && reaches_all(adj, lab, del, 0)
}

/// Every vertex foremost-reaches the whole graph.
pub open spec fn holds_four(adj: Seq<Seq<usize>>, lab: Seq<Seq<u64>>, del: Seq<Seq<bool>>) -> bool {
    forall|s: usize| s < adj.len() ==> #[trigger] reaches_all(adj, lab, del, s)
}

/// The inputs that the property checks read: ids in range and masks and labels
/// shaped like the graph.
pub open spec fn inputs_ok(g: Graph, labels: Vec<Vec<u64>>, deleted: Vec<Vec<bool>>) -> bool {
    &&& ids_in_range(g@, g.nodes as int)
    &&& same_shape(g@, rows(labels))
    &&& same_shape(g@, rows(deleted))
}

/// Builds the foremost tree from `s` and tells whether it reaches every vertex.
fn reaches_everything(g: &Graph, labels: &Vec<Vec<u64>>, deleted: &Vec<Vec<bool>>, s: usize) -> (r: bool)
    requires
        inputs_ok(*g, *labels, *deleted),
        s < g.nodes,
    ensures
        r == reaches_all(g@, rows(*labels), rows(*deleted), s),
{
    let t = construct_foremost_tree(g, labels, deleted, s);
    proof {
        lemma_reach_is(g@, rows(*labels), rows(*deleted), s, t.reached@, t.edges@);
        lemma_reached_distinct(g@, rows(*labels), rows(*deleted), s, t.reached@, t.edges@);
    }
    t.reached.len() == g.nodes
}

/// Whether vertex 1 is foremost-reachable from vertex 0.
pub fn property_one(g: &Graph, labels: &Vec<Vec<u64>>, deleted: &Vec<Vec<bool>>) -> (r: bool)
    requires
        inputs_ok(*g, *labels, *deleted),
    ensures
        r == holds_one(g@, rows(*labels), rows(*deleted)),
{
    if g.nodes < 2 {
        return false;
    }
    let t = construct_foremost_tree(g, labels, deleted, 0);
    proof {
        lemma_reach_is(g@, rows(*labels), rows(*deleted), 0, t.reached@, t.edges@);
    }
    let mut k: usize = 0;
    while k < t.reached.len()
        invariant
            k <= t.reached@.len(),
            g@.len() >= 2,
            foremost_reach(g@, rows(*labels), rows(*deleted), 0) == t.reached@.to_set(),
            forall|q: int| 0 <= q < k ==> t.reached@[q] != 1,
        decreases t.reached@.len() - k,
    {
        if t.reached[k] == 1 {
            assert(t.reached@.contains(1usize));
            assert(t.reached@.to_set().contains(1usize));
            return true;
        }
        k = k + 1;
    }
    assert(!t.reached@.to_set().contains(1usize));
    false
}

/// Whether some vertex foremost-reaches the whole graph; stops at the first that does.
pub fn property_two(g: &Graph, labels: &Vec<Vec<u64>>, deleted: &Vec<Vec<bool>>) -> (r: bool)
    requires
        inputs_ok(*g, *labels, *deleted),
    ensures
        r == holds_two(g@, rows(*labels), rows(*deleted)),
{
    let mut s: usize = 0;
    while s < g.nodes
        invariant
            inputs_ok(*g, *labels, *deleted),
            s <= g.nodes,
            forall|x: usize| x < s ==> !#[trigger] reaches_all(g@, rows(*labels), rows(*deleted), x),
        decreases g.nodes - s,
    {
        if reaches_everything(g, labels, deleted, s) {
            return true;
        }
        s = s + 1;
    }
    false
}

/// Whether vertex 0 foremost-reaches the whole graph.
pub fn property_three(g: &Graph, labels: &Vec<Vec<u64>>, deleted: &Vec<Vec<bool>>) -> (r: bool)
    requires
        inputs_ok(*g, *labels, *deleted),
    ensures
        r == holds_three(g@, rows(*labels), rows(*deleted)),
{
    if g.nodes < 1 {
        return false;
    }
    reaches_everything(g, labels, deleted, 0)
}

/// Whether every vertex foremost-reaches the whole graph; stops at the first that does not.
pub fn property_four(g: &Graph, labels: &Vec<Vec<u64>>, deleted: &Vec<Vec<bool>>) -> (r: bool)
    requires
        inputs_ok(*g, *labels, *deleted),
    ensures
        r == holds_four(g@, rows(*labels), rows(*deleted)),
{
    let mut s: usize = 0;
    while s < g.nodes
        invariant
            inputs_ok(*g, *labels, *deleted),
            s <= g.nodes,
            forall|x: usize| x < s ==> #[trigger] reaches_all(g@, rows(*labels), rows(*deleted), x),
        decreases g.nodes - s,
    {
        if !reaches_everything(g, labels, deleted, s) {
            return false;
        }
        s = s + 1;
    }
    true
}

/// If vertex 0 reaches the whole graph, some vertex does.
pub proof fn lemma_three_implies_two(adj: Seq<Seq<usize>>, lab: Seq<Seq<u64>>, del: Seq<Seq<bool>>)
    ensures
        holds_three(adj, lab, del) ==> holds_two(adj, lab, del),
{
    if holds_three(adj, lab, del) {
        assert(reaches_all(adj, lab, del, 0));
    }
}

/// In a graph with at least one vertex, if every vertex reaches the whole graph,
/// then vertex 0 does, and so some vertex does.
pub proof fn lemma_four_implies_three_and_two(adj: Seq<Seq<usize>>, lab: Seq<Seq<u64>>, del: Seq<Seq<bool>>)
    requires
        adj.len() >= 1,
    ensures
        holds_four(adj, lab, del) ==> holds_three(adj, lab, del),
        holds_four(adj, lab, del) ==> holds_two(adj, lab, del),
{
    if holds_four(adj, lab, del) {
        assert(reaches_all(adj, lab, del, 0));
    }
}

/// Raising the percolation threshold never shrinks what the foremost tree from a
/// source reaches.
pub proof fn lemma_reach_monotone(
    adj: Seq<Seq<usize>>,
    lab: Seq<Seq<u64>>,
    source: usize,
    p_low: u64,
    p_high: u64,
    reached1: Seq<usize>,
    tree1: Seq<(usize, usize)>,
    reached2: Seq<usize>,
    tree2: Seq<(usize, usize)>,
)
    requires
        same_shape(adj, lab),
        p_low <= p_high,
        is_foremost_tree(adj, lab, mask_of(lab, p_low), source, reached1, tree1),
        is_foremost_tree(adj, lab, mask_of(lab, p_high), source, reached2, tree2),
    ensures
        reached1.to_set().subset_of(reached2.to_set()),
        foremost_reach(adj, lab, mask_of(lab, p_low), source).subset_of(
            foremost_reach(adj, lab, mask_of(lab, p_high), source),
        ),
{
    assert forall|u: int, i: int|
        0 <= u < adj.len() && 0 <= i < adj[u].len() && !#[trigger] mask_of(lab, p_low)[u][i] implies !mask_of(
        lab,
        p_high,
    )[u][i] by {
        assert(adj[u].len() == lab[u].len());
    }
    assert(keeps_at_least(adj, mask_of(lab, p_low), mask_of(lab, p_high)));
    lemma_reached_within(adj, lab, mask_of(lab, p_low), lab, mask_of(lab, p_high), source, reached1, tree1, reached2, tree2);
    lemma_reach_is(adj, lab, mask_of(lab, p_low), source, reached1, tree1);
    lemma_reach_is(adj, lab, mask_of(lab, p_high), source, reached2, tree2);
}

} // verus!
