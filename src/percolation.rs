//! Percolation: removing the arcs whose time label lies above a threshold.
use vstd::prelude::*;
use crate::graph::{rows, same_shape, Graph};

verus! {

/// The deletion mask at threshold `p`: a slot is deleted iff its label exceeds `p`.
pub open spec fn mask_of(lab: Seq<Seq<u64>>, p: u64) -> Seq<Seq<bool>> {
    Seq::new(lab.len(), |u: int| Seq::new(lab[u].len(), |i: int| lab[u][i] > p))
}

/// Marks as deleted every arc slot whose label is strictly greater than `p`.
/// Neither the graph nor the labels change; each call builds a fresh mask.
pub fn set_p(g: &Graph, labels: &Vec<Vec<u64>>, p: u64) -> (deleted: Vec<Vec<bool>>)
    requires
        same_shape(g@, rows(*labels)),
    ensures
        rows(deleted) == mask_of(rows(*labels), p),
        same_shape(g@, rows(deleted)),
{
    let ghost lab = rows(*labels);
    let mut deleted: Vec<Vec<bool>> = Vec::new();
    let mut u: usize = 0;
    while u < labels.len()
        invariant
            lab == rows(*labels),
            u <= labels@.len(),
            deleted@.len() == u,
            forall|a: int| 0 <= a < u ==> #[trigger] deleted@[a]@ == mask_of(lab, p)[a],
        decreases labels@.len() - u,
    {
        let row = &labels[u];
        let mut out: Vec<bool> = Vec::new();
        let mut i: usize = 0;
        while i < row.len()
            invariant
                row@ == lab[u as int],
                i <= row@.len(),
                out@.len() == i,
                forall|k: int| 0 <= k < i ==> #[trigger] out@[k] == (row@[k] > p),
            decreases row@.len() - i,
        {
            out.push(row[i] > p);
            i = i + 1;
        }
        assert(out@ =~= mask_of(lab, p)[u as int]);
        deleted.push(out);
        u = u + 1;
    }
    assert(rows(deleted) =~= mask_of(lab, p));
    deleted
}

/// A lower threshold deletes at least what a higher one deletes.
pub proof fn lemma_mask_monotone(lab: Seq<Seq<u64>>, p_low: u64, p_high: u64)
    requires
        p_low < p_high,
    ensures
        forall|u: int, i: int|
            0 <= u < lab.len() && 0 <= i < lab[u].len() && #[trigger] mask_of(lab, p_high)[u][i]
                ==> mask_of(lab, p_low)[u][i],
{
}

} // verus!
