//! A resumable depth-first walk that follows program-order edges only.
use crate::aeg::AbstractEventGraph;
use crate::builder::all_below;
use crate::graph::node_count;
use vstd::prelude::*;

verus! {

/// The state of a depth-first walk over po edges: the nodes still to
/// visit, and which nodes were visited.
#[derive(Clone, Debug)]
pub struct ProgramOrderDfs {
    pub stack: Vec<usize>,
    pub discovered: Vec<bool>,
}

impl ProgramOrderDfs {
    /// The walk's indices fit the graph.
    pub open spec fn fits(&self, aeg: &AbstractEventGraph) -> bool {
        &&& self.discovered@.len() == aeg.gv().nodes.len()
        &&& all_below(self.stack@, aeg.gv().nodes.len())
    }

    /// A walk that visits nothing yet, to start from `start`.
    pub fn new(aeg: &AbstractEventGraph, start: usize) -> (r: Self)
        requires
            aeg.wf(),
            start < aeg.gv().nodes.len(),
        ensures
            r.fits(aeg),
            r.stack@ == seq![start],
            forall|i: int| 0 <= i < r.discovered@.len() ==> !#[trigger] r.discovered@[i],
    {
        let mut dfs = ProgramOrderDfs::empty(aeg);
        dfs.move_to(start);
        dfs
    }

    /// A walk from a stack and a record of visited nodes.
    pub fn from_parts(stack: Vec<usize>, discovered: Vec<bool>) -> (r: Self)
        ensures
            r.stack == stack,
            r.discovered == discovered,
    {
        ProgramOrderDfs { stack, discovered }
    }

    /// Forget every visit and empty the stack.
    pub fn reset(&mut self, aeg: &AbstractEventGraph)
        requires
            aeg.wf(),
        ensures
            final(self).fits(aeg),
            final(self).stack@.len() == 0,
            forall|i: int| 0 <= i < final(self).discovered@.len() ==> !#[trigger] final(self).discovered@[i],
    {
        *self = ProgramOrderDfs::empty(aeg);
    }

    /// A walk with nothing visited and nothing to visit.
    pub fn empty(aeg: &AbstractEventGraph) -> (r: Self)
        requires
            aeg.wf(),
        ensures
            r.fits(aeg),
            r.stack@.len() == 0,
            forall|i: int| 0 <= i < r.discovered@.len() ==> !#[trigger] r.discovered@[i],
    {
        let n = node_count(&aeg.graph);
        let mut discovered: Vec<bool> = Vec::new();
        let mut i: usize = 0;
        while i < n
            invariant
                i <= n,
                discovered@.len() == i,
                forall|k: int| 0 <= k < i ==> !#[trigger] discovered@[k],
            decreases n - i,
        {
            discovered.push(false);
            i += 1;
        }
        ProgramOrderDfs { stack: Vec::new(), discovered }
    }

    /// Keep the visits, but restart the walk from `start`.
    pub fn move_to(&mut self, start: usize)
        ensures
            final(self).stack@ == seq![start],
            final(self).discovered == old(self).discovered,
    {
        self.stack.clear();
        self.stack.push(start);
    }

    /// The next node of the walk, now visited; its unvisited po successors
    /// are pushed to be visited next. `None` once nothing is left to visit.
    pub fn next(&mut self, aeg: &AbstractEventGraph) -> (r: Option<usize>)
        requires
            aeg.wf(),
            old(self).fits(aeg),
        ensures
            final(self).fits(aeg),
            r matches Some(v) ==> old(self).stack@.contains(v) && !old(self).discovered@[v as int]
                && final(self).discovered@[v as int],
            r is None ==> final(self).stack@.len() == 0 && final(self).discovered == old(self).discovered
                && forall|k: int| 0 <= k < old(self).stack@.len() ==> old(self).discovered@[#[trigger] old(self).stack@[k] as int],
            forall|i: int|
                0 <= i < old(self).discovered@.len() && old(self).discovered@[i] ==> #[trigger] final(self).discovered@[i],
    {
        let ghost s0 = self.stack@;
        let ghost d0 = self.discovered@;
        while self.stack.len() > 0
            invariant
                aeg.wf(),
                self.fits(aeg),
                self.discovered == old(self).discovered,
                d0 == old(self).discovered@,
                s0 == old(self).stack@,
                forall|k: int| 0 <= k < self.stack@.len() ==> #[trigger] self.stack@[k] == s0[k],
                self.stack@.len() <= s0.len(),
                forall|k: int| self.stack@.len() <= k < s0.len() ==> d0[#[trigger] s0[k] as int],
            decreases self.stack@.len(),
        {
            let node = self.stack.pop().unwrap();
            proof {
                assert(s0[self.stack@.len() as int] == node);
                assert(s0.contains(node));
            }
            if !self.discovered[node] {
                self.discovered.set(node, true);
                let succs = aeg.close_po_neighbors(node);
                let mut k: usize = 0;
                while k < succs.len()
                    invariant
                        aeg.wf(),
                        self.fits(aeg),
                        all_below(succs@, aeg.gv().nodes.len()),
                        forall|i: int| 0 <= i < d0.len() && d0[i] ==> #[trigger] self.discovered@[i],
                        self.discovered@[node as int],
                    decreases succs@.len() - k,
                {
                    if !self.discovered[succs[k]] {
                        self.stack.push(succs[k]);
                    }
                    k += 1;
                }
                return Some(node);
            }
        }
        None
    }
}

} // verus!
