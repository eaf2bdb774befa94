//! The per-graph trial (three percolation thresholds, four properties) and the
//! tally of outcomes over a corpus of graphs.
use vstd::prelude::*;
use crate::graph::{graph_error, rows, same_shape, Graph, GraphError};
use crate::labels::{agree_on, generate_time_labels};
use crate::percolation::{mask_of, set_p};
use crate::properties::{
    holds_four, holds_one, holds_three, holds_two, property_four, property_one, property_three,
    property_two,
};

verus! {

/// The three thresholds of one trial, as labels (units of `2^-64`): the high one
/// is checked against property four, the middle one against properties three and
/// two, the low one against property one.
#[derive(PartialEq, Eq, Structural, Clone, Copy, Debug)]
pub struct Thresholds {
    pub high: u64,
    pub mid: u64,
    pub low: u64,
}

/// Which of the four properties one graph satisfied.
#[derive(PartialEq, Eq, Structural, Clone, Copy, Debug)]
pub struct Outcome {
    pub one: bool,
    pub two: bool,
    pub three: bool,
    pub four: bool,
}

/// The outcome of a graph with the given labels under the given thresholds.
pub open spec fn outcome_of(adj: Seq<Seq<usize>>, lab: Seq<Seq<u64>>, th: Thresholds) -> Outcome {
    Outcome {
        one: holds_one(adj, lab, mask_of(lab, th.low)),
        two: holds_two(adj, lab, mask_of(lab, th.mid)),
        three: holds_three(adj, lab, mask_of(lab, th.mid)),
        four: holds_four(adj, lab, mask_of(lab, th.high)),
    }
}

/// Evaluates the four properties of a labelled graph: property four at the high
/// threshold, three and then two on one mask at the middle threshold, and one at
/// the low threshold. Each mask is built afresh from the labels.
pub fn evaluate_graph(g: &Graph, labels: &Vec<Vec<u64>>, th: Thresholds) -> (r: Outcome)
    requires
        g.wf(),
        same_shape(g@, rows(*labels)),
    ensures
        r == outcome_of(g@, rows(*labels), th),
{
    let deleted = set_p(g, labels, th.high);
    let four = property_four(g, labels, &deleted);
    let deleted = set_p(g, labels, th.mid);
    let three = property_three(g, labels, &deleted);
    let two = property_two(g, labels, &deleted);
    let deleted = set_p(g, labels, th.low);
    let one = property_one(g, labels, &deleted);
    Outcome { one, two, three, four }
}

/// Labels a graph at random and evaluates it. A graph that breaks its input
/// contract yields its first violation and is not evaluated.
pub fn analyze_graph(g: &Graph, th: Thresholds) -> (r: Result<Outcome, GraphError>)
    ensures
        match graph_error(*g) {
            Some(e) => r == Err::<Outcome, GraphError>(e),
            None => r is Ok,
        },
        r is Ok ==> exists|lab: Seq<Seq<u64>>|
            #![trigger outcome_of(g@, lab, th)]
            same_shape(g@, lab) && agree_on(g@, lab) && r->Ok_0 == outcome_of(g@, lab, th),
{
    match generate_time_labels(g) {
        Err(e) => Err(e),
        Ok(labels) => {
            let o = evaluate_graph(g, &labels, th);
            assert(same_shape(g@, rows(labels)) && agree_on(g@, rows(labels)) && o == outcome_of(g@, rows(labels), th));
            Ok(o)
        },
    }
}

/// Counts over a corpus: how many graphs were evaluated, how many satisfied each
/// property, and how many were excluded for breaking their input contract.
#[derive(PartialEq, Eq, Structural, Clone, Copy, Debug)]
pub struct Tally {
    pub graphs: u64,
    pub one: u64,
    pub two: u64,
    pub three: u64,
    pub four: u64,
    pub excluded: u64,
}

impl Tally {
    /// No property count exceeds the number of evaluated graphs.
    pub open spec fn wf(&self) -> bool {
        self.one <= self.graphs && self.two <= self.graphs && self.three <= self.graphs
            && self.four <= self.graphs
    }

    /// A tally of nothing.
    pub fn new() -> (t: Tally)
        ensures
            t == (Tally { graphs: 0, one: 0, two: 0, three: 0, four: 0, excluded: 0 }),
            t.wf(),
    {
        Tally { graphs: 0, one: 0, two: 0, three: 0, four: 0, excluded: 0 }
    }

    /// Adds one graph's result: an evaluated graph counts towards the total and
    /// towards each property it satisfied; a failed one only towards the excluded.
    pub fn record(&mut self, r: &Result<Outcome, GraphError>)
        requires
            old(self).wf(),
            old(self).graphs < u64::MAX,
            old(self).excluded < u64::MAX,
        ensures
            final(self).wf(),
            match *r {
                Ok(o) => *final(self) == Tally {
                    graphs: (old(self).graphs + 1) as u64,
                    one: (old(self).one + if o.one { 1int } else { 0int }) as u64,
                    two: (old(self).two + if o.two { 1int } else { 0int }) as u64,
                    three: (old(self).three + if o.three { 1int } else { 0int }) as u64,
                    four: (old(self).four + if o.four { 1int } else { 0int }) as u64,
                    excluded: old(self).excluded,
                },
                Err(_) => *final(self) == Tally { excluded: (old(self).excluded + 1) as u64, ..*old(self) },
            },
    {
        match r {
            Ok(o) => {
                self.graphs = self.graphs + 1;
                if o.one {
                    self.one = self.one + 1;
                }
                if o.two {
                    self.two = self.two + 1;
                }
                if o.three {
                    self.three = self.three + 1;
                }
                if o.four {
                    self.four = self.four + 1;
                }
            },
            Err(_) => {
                self.excluded = self.excluded + 1;
            },
        }
    }
}

} // verus!
