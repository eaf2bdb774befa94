//! Time labels: one random value per undirected edge, seen from both of its
//! endpoints. A label `l` stands for the time `l / 2^64` in `[0, 1)`.
use vstd::prelude::*;
use crate::graph::{
    first_position, graph_error, is_first, no_repeated_neighbours, rows, same_shape, validate,
    Graph, GraphError,
};

verus! {

/// rand's handle on the thread-local random generator, carried opaquely.
#[verifier::external_type_specification]
#[verifier::external_body]
pub struct ExThreadRng(rand::rngs::ThreadRng);

/// Relies on rand::rng: a handle on the thread-local random generator.
#[verifier::external_body]
fn thread_generator() -> rand::rngs::ThreadRng {
    rand::rng()
}

/// Relies on rand::Rng::random for u64: a uniformly drawn value, taken as a
/// label in `[0, 1)` in units of `2^-64`.
#[verifier::external_body]
fn draw_label(rng: &mut rand::rngs::ThreadRng) -> u64 {
    rand::Rng::random::<u64>(rng)
}

/// Labels filled in so far agree across each edge: for the first slot `(u, i)` at
/// which `u` lists `v` and the first slot `(v, j)` at which `v` lists `u`, both
/// slots carry the same label once both are filled.
pub open spec fn agree_on(adj: Seq<Seq<usize>>, lab: Seq<Seq<u64>>) -> bool {
    forall|u: int, i: int, j: int|
        0 <= u < lab.len() && 0 <= i < lab[u].len() && #[trigger] is_first(adj[u], i, adj[u][i])
            && 0 <= adj[u][i] < lab.len() && j < lab[adj[u][i] as int].len()
            && #[trigger] is_first(adj[adj[u][i] as int], j, u as usize) ==> lab[u][i]
            == lab[adj[u][i] as int][j]
}

/// Every directed view `(u, v)` at slot `i` and `(v, u)` at slot `j` of an edge
/// carries the same label.
pub open spec fn labels_symmetric(adj: Seq<Seq<usize>>, lab: Seq<Seq<u64>>) -> bool {
    forall|u: int, i: int, j: int|
        0 <= u < adj.len() && 0 <= i < adj[u].len() && 0 <= j < adj[adj[u][i] as int].len()
            && #[trigger] adj[adj[u][i] as int][j] == u ==> #[trigger] lab[u][i]
            == lab[adj[u][i] as int][j]
}

/// Gives every undirected edge of a well-formed graph one random label, shared by
/// its two directed views. Fails with the graph's first contract violation.
pub fn generate_time_labels(g: &Graph) -> (r: Result<Vec<Vec<u64>>, GraphError>)
    ensures
        match graph_error(*g) {
            Some(e) => r == Err::<Vec<Vec<u64>>, GraphError>(e),
            None => r is Ok,
        },
        r is Ok ==> same_shape(g@, rows(r->Ok_0)) && agree_on(g@, rows(r->Ok_0)),
{
    match validate(g) {
        Err(e) => { return Err(e); },
        Ok(()) => {},
    }
    let n = g.nodes;
    let mut rng = thread_generator();
    let mut labels: Vec<Vec<u64>> = Vec::new();
    let mut u: usize = 0;
    while u < n
        invariant
            g.wf(),
            n == g.nodes,
            u <= n,
            labels@.len() == u,
            forall|a: int| 0 <= a < u ==> #[trigger] labels@[a]@.len() == g@[a].len(),
            agree_on(g@, rows(labels)),
        decreases n - u,
    {
        let nbrs = &g.edges[u];
        let mut row: Vec<u64> = Vec::new();
        let mut i: usize = 0;
        while i < nbrs.len()
            invariant
                g.wf(),
                n == g.nodes,
                u < n,
                nbrs@ == g@[u as int],
                labels@.len() == u,
                forall|a: int| 0 <= a < u ==> #[trigger] labels@[a]@.len() == g@[a].len(),
                i <= nbrs.len(),
                row@.len() == i,
                agree_on(g@, rows(labels).push(row@)),
            decreases nbrs.len() - i,
        {
            let ghost before = rows(labels).push(row@);
            let v = nbrs[i];
            assert(g@[u as int][i as int] < n);
            assert(g@[v as int].contains(u));
            let j = first_position(&g.edges[v], u);
            let l: u64;
            if v < u {
                l = labels[v][j];
            } else if v == u && j < i {
                l = row[j];
            } else {
                l = draw_label(&mut rng);
            }
            row.push(l);
            let ghost after = rows(labels).push(row@);
            assert forall|a: int, k: int, m: int|
                0 <= a < after.len() && 0 <= k < after[a].len() && #[trigger] is_first(
                    g@[a],
                    k,
                    g@[a][k],
                ) && 0 <= g@[a][k] < after.len() && m < after[g@[a][k] as int].len()
                    && #[trigger] is_first(g@[g@[a][k] as int], m, a as usize) implies after[a][k]
                == after[g@[a][k] as int][m] by {
                let b = g@[a][k] as int;
                if a == u && k == i {
                    assert(is_first(g@[b], j as int, u));
                    if b == u {
                        assert(m == j);
                        if m < i {
                            assert(after[b][m] == before[b][m]);
                        }
                    } else {
                        assert(m == j);
                        assert(after[b][m] == labels@[b]@[m]);
                    }
                } else if b == u && m == i {
                    assert(is_first(g@[u as int], i as int, a as usize));
                    assert(a == v);
                    assert(is_first(g@[v as int], k, u));
                    assert(k == j);
                    if a == u {
                        assert(after[a][k] == before[a][k]);
                    } else {
                        assert(after[a][k] == labels@[a]@[k]);
                    }
                } else {
                    assert(after[a][k] == before[a][k]);
                    assert(after[b][m] == before[b][m]);
                }
            }
            i = i + 1;
        }
        labels.push(row);
        assert(rows(labels) =~= rows(labels).take(u as int).push(row@));
        u = u + 1;
    }
    assert(same_shape(g@, rows(labels)));
    Ok(labels)
}

/// In a graph whose neighbour lists repeat no vertex, generated labels are the
/// same from both ends of every edge.
pub proof fn lemma_label_symmetry(g: Graph, labels: Vec<Vec<u64>>)
    requires
        g.wf(),
        no_repeated_neighbours(g@),
        same_shape(g@, rows(labels)),
        agree_on(g@, rows(labels)),
    ensures
        labels_symmetric(g@, rows(labels)),
{
    let adj = g@;
    let lab = rows(labels);
    assert forall|u: int, i: int, j: int|
        0 <= u < adj.len() && 0 <= i < adj[u].len() && 0 <= j < adj[adj[u][i] as int].len()
            && #[trigger] adj[adj[u][i] as int][j] == u implies #[trigger] lab[u][i] == lab[adj[u][i] as int][j] by {
        let v = adj[u][i] as int;
        assert(adj[u].len() == lab[u].len());
        assert(adj[v].len() == lab[v].len());
        assert(is_first(adj[u], i, adj[u][i]));
        assert(is_first(adj[v], j, u as usize));
    }
}

} // verus!
