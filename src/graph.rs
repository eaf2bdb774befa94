//! Undirected graphs given as adjacency lists, and their well-formedness.
use vstd::prelude::*;

verus! {

/// The rows of a nested vector, each seen as a sequence.
pub open spec fn rows<T>(v: Vec<Vec<T>>) -> Seq<Seq<T>> {
    Seq::new(v@.len(), |u: int| v@[u]@)
}

/// Two nested sequences have the same number of rows and equally long rows.
pub open spec fn same_shape<A, B>(a: Seq<Seq<A>>, b: Seq<Seq<B>>) -> bool {
    &&& a.len() == b.len()
    &&& forall|u: int| 0 <= u < a.len() ==> #[trigger] a[u].len() == b[u].len()
}

/// An adjacency structure over `n` vertices whose entries all name a vertex.
pub open spec fn ids_in_range(adj: Seq<Seq<usize>>, n: int) -> bool {
    &&& adj.len() == n
    &&& forall|u: int, i: int| 0 <= u < adj.len() && 0 <= i < adj[u].len() ==> #[trigger] adj[u][i] < n
}

/// Whenever `v` is a neighbour of `u`, `u` is a neighbour of `v`.
pub open spec fn symmetric(adj: Seq<Seq<usize>>) -> bool {
    forall|u: int, i: int|
        0 <= u < adj.len() && 0 <= i < adj[u].len() ==> adj[#[trigger] adj[u][i] as int].contains(
            u as usize,
        )
}

/// No neighbour list names the same vertex twice.
pub open spec fn no_repeated_neighbours(adj: Seq<Seq<usize>>) -> bool {
    forall|u: int, i: int, j: int|
        0 <= u < adj.len() && 0 <= i < j < adj[u].len() ==> #[trigger] adj[u][i] != #[trigger] adj[u][j]
}

/// `j` is the first position at which `x` occurs in `s`.
pub open spec fn is_first(s: Seq<usize>, j: int, x: usize) -> bool {
    &&& 0 <= j < s.len()
    &&& s[j] == x
    &&& forall|k: int| 0 <= k < j ==> s[k] != x
}

/// A graph: a vertex count and, for each vertex, its ordered neighbour list.
/// An undirected edge appears once in the list of each of its endpoints.
pub struct Graph {
    pub nodes: usize,
    pub edges: Vec<Vec<usize>>,
}

impl View for Graph {
    type V = Seq<Seq<usize>>;

    open spec fn view(&self) -> Seq<Seq<usize>> {
        rows(self.edges)
    }
}

/// Ways in which a graph can break its input contract.
#[derive(PartialEq, Eq, Structural, Clone, Copy, Debug)]
pub enum GraphError {
    /// The number of neighbour lists differs from the vertex count.
    WrongVertexCount,
    /// A neighbour list names a vertex that does not exist.
    VertexOutOfRange,
    /// An edge is listed at one endpoint but not at the other.
    MissingReverseEdge,
}

/// The first contract violation of a graph, checked in the order of `GraphError`.
pub open spec fn graph_error(g: Graph) -> Option<GraphError> {
    if g.edges@.len() != g.nodes {
        Some(GraphError::WrongVertexCount)
    } else if !ids_in_range(g@, g.nodes as int) {
        Some(GraphError::VertexOutOfRange)
    } else if !symmetric(g@) {
        Some(GraphError::MissingReverseEdge)
    } else {
        None
    }
}

impl Graph {
    /// Vertex ids lie in `0..nodes` and every edge is listed at both ends.
    pub open spec fn wf(&self) -> bool {
        ids_in_range(self@, self.nodes as int) && symmetric(self@)
    }
}

/// Position of the first occurrence of `x` in `list`.
pub fn first_position(list: &Vec<usize>, x: usize) -> (j: usize)
    requires
        list@.contains(x),
    ensures
        is_first(list@, j as int, x),
{
    let mut j: usize = 0;
    while j < list.len()
        invariant
            j <= list.len(),
            list@.contains(x),
            forall|k: int| 0 <= k < j ==> list@[k] != x,
        decreases list.len() - j,
    {
        if list[j] == x {
            return j;
        }
        j = j + 1;
    }
    j
}

/// Whether `list` names `x`.
pub fn lists(list: &Vec<usize>, x: usize) -> (r: bool)
    ensures
        r == list@.contains(x),
{
    let mut j: usize = 0;
    while j < list.len()
        invariant
            j <= list.len(),
            forall|k: int| 0 <= k < j ==> list@[k] != x,
        decreases list.len() - j,
    {
        if list[j] == x {
            return true;
        }
        j = j + 1;
    }
    false
}

/// Checks the input contract of a graph, reporting its first violation.
pub fn validate(g: &Graph) -> (r: Result<(), GraphError>)
    ensures
        r == match graph_error(*g) {
            None => Ok::<(), GraphError>(()),
            Some(e) => Err(e),
        },
        r is Ok <==> g.wf(),
{
    let n = g.nodes;
    if g.edges.len() != n {
        return Err(GraphError::WrongVertexCount);
    }
    let mut u: usize = 0;
    while u < n
        invariant
            g.edges@.len() == n,
            n == g.nodes,
            u <= n,
            forall|a: int, i: int| 0 <= a < u && 0 <= i < g@[a].len() ==> #[trigger] g@[a][i] < n,
        decreases n - u,
    {
        let row = &g.edges[u];
        let mut i: usize = 0;
        while i < row.len()
            invariant
                g.edges@.len() == n,
                n == g.nodes,
                u < n,
                row@ == g@[u as int],
                i <= row.len(),
                forall|a: int, k: int| 0 <= a < u && 0 <= k < g@[a].len() ==> #[trigger] g@[a][k] < n,
                forall|k: int| 0 <= k < i ==> #[trigger] row@[k] < n,
            decreases row.len() - i,
        {
            if row[i] >= n {
                return Err(GraphError::VertexOutOfRange);
            }
            i = i + 1;
        }
        u = u + 1;
    }
    assert(ids_in_range(g@, n as int));
    let mut u: usize = 0;
    while u < n
        invariant
            ids_in_range(g@, n as int),
            g.edges@.len() == n,
            n == g.nodes,
            u <= n,
            forall|a: int, i: int|
                0 <= a < u && 0 <= i < g@[a].len() ==> g@[#[trigger] g@[a][i] as int].contains(
                    a as usize,
                ),
        decreases n - u,
    {
        let row = &g.edges[u];
        let mut i: usize = 0;
        while i < row.len()
            invariant
                ids_in_range(g@, n as int),
                g.edges@.len() == n,
                n == g.nodes,
                u < n,
                row@ == g@[u as int],
                i <= row.len(),
                forall|a: int, k: int|
                    0 <= a < u && 0 <= k < g@[a].len() ==> g@[#[trigger] g@[a][k] as int].contains(
                        a as usize,
                    ),
                forall|k: int|
                    0 <= k < i ==> g@[#[trigger] row@[k] as int].contains(u as usize),
            decreases row.len() - i,
        {
            let v = row[i];
            assert(g@[u as int][i as int] < n);
            if !lists(&g.edges[v], u) {
                return Err(GraphError::MissingReverseEdge);
            }
            i = i + 1;
        }
        u = u + 1;
    }
    Ok(())
}

} // verus!
