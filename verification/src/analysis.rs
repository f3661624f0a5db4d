//! Everything that is worked out of a graph once, for all plans: components,
//! their condensation, costs and dominance.
use vstd::prelude::*;

use crate::algo::condensation::Condensation;
use crate::algo::cost::{self, CostDb, CostWeights};
use crate::algo::prune;
use crate::algo::scc::{self, SccResult};
use crate::graph::KnowledgeGraph;
use crate::model::{MaterialId, RecipeId};
use crate::scalar::{Arithmetic, Scalar};

verus! {

/// What is worked out of a graph once.
pub struct Analysis {
    pub scc: SccResult,
    /// The condensed graph.
    pub cond: Condensation,
    pub cost: CostDb,
    /// The products for which each recipe is dominated, in ascending order.
    pub dominated_for: Vec<Vec<MaterialId>>,
    /// How long the analysis took; whoever measures it fills it in.
    pub build_ms: Scalar,
}

impl Analysis {
    /// The analysis is one of the graph.
    pub open spec fn fits<A: Arithmetic>(self, ar: A, g: KnowledgeGraph) -> bool {
        &&& g.wf()
        &&& crate::algo::condensation::scc_fits(g, self.scc)
        &&& self.cond.fits(g)
        &&& self.cost.fits(ar, g)
        &&& self.dominated_for@.len() == g.r_count()
        &&& forall|r: int|
            0 <= r < g.r_count() ==> crate::algo::prune::in_order((
            #[trigger] self.dominated_for@[r])@)
    }

    /// The analysis with the balanced weights.
    pub fn build<A: Arithmetic>(ar: &A, g: &KnowledgeGraph) -> (r: Self)
        requires
            g.wf(),
        ensures
            r.fits(*ar, *g),
            r.analyses(*ar, *g, 48, CostWeights::balanced_spec(*ar)),
    {
        Self::build_with(ar, g, 48, CostWeights::balanced(ar))
    }

    /// The parts are those that the graph, the number of sweeps and the weights
    /// determine.
    pub open spec fn analyses<A: Arithmetic>(
        self,
        ar: A,
        g: KnowledgeGraph,
        cost_iters: usize,
        weights: CostWeights,
    ) -> bool {
        &&& crate::algo::condensation::scc_of(g, self.scc)
        &&& self.cond.connects(g)
        &&& self.cond.comp_of_material@ == self.scc.comp@.take(g.m_count())
        &&& self.cond.comp_of_recipe@ == self.scc.comp@.skip(g.m_count())
        &&& forall|a: u32, b: u32| #[trigger]
            crate::algo::condensation::feeds(g, self.cond.comp_of_material@, a, b)
                ==> crate::algo::condensation::precedes(self.cond.topo_order@, a, b)
        &&& forall|c: int|
            0 <= c < self.cond.comp_count ==> (#[trigger] self.cond.cyclic@[c]
                <==> self.scc.sizes@[c] > 1)
        &&& forall|m: int|
            0 <= m < g.m_count() ==> #[trigger] self.cost.cyclic@[m]
                == self.cond.cyclic@[self.cond.comp_of_material@[m] as int]
        &&& self.cost.weights == weights
        &&& (self.cost.depth@, self.cost.iterations as nat, self.cost.converged)
            == crate::algo::cost::sweeps(
            g,
            crate::algo::cost::first_depths(g),
            cost_iters as nat,
        )
        &&& {
            let setting = crate::algo::cost::Setting {
                ar: &ar,
                g: &g,
                cond: &self.cond,
                depth: &self.cost.depth,
                w: weights,
            };
            self.cost.vectors@ == setting.result().costs && self.cost.best_recipe@
                == setting.result().best
        }
        &&& forall|r: int|
            0 <= r < g.r_count() ==> (#[trigger] self.dominated_for@[r])@
                == crate::algo::prune::dominated_below(
                ar,
                g,
                self.cost.unit_cost@,
                r as u32,
                g.m_count(),
            )
    }

    /// The analysis with given weights; routes depend on them.
    pub fn build_with<A: Arithmetic>(
        ar: &A,
        g: &KnowledgeGraph,
        cost_iters: usize,
        weights: CostWeights,
    ) -> (r: Self)
        requires
            g.wf(),
        ensures
            r.fits(*ar, *g),
            r.analyses(*ar, *g, cost_iters, weights),
            r.build_ms == ar.ratio_spec(0, 1),
    {
        let (n, adj) = scc::build_adjacency(g);
        let scc = scc::tarjan(n, &adj);
        assert(crate::algo::scc::production_edges(*g, adj@));
        assert(crate::algo::condensation::scc_of(*g, scc));
        let cond = Condensation::build(g, &scc);
        let cost = cost::build(ar, g, &cond, cost_iters, weights);
        let dominated_for = prune::dominance_pruning(ar, g, &cost.unit_cost);
        Analysis { scc, cond, cost, dominated_for, build_ms: ar.ratio(0, 1) }
    }

    /// Recipe `rid` is dominated for product `m`.
    pub open spec fn dominated_spec(self, rid: RecipeId, m: MaterialId) -> bool {
        self.dominated_for@[rid as int]@.contains(m)
    }

    /// Whether recipe `rid` is dominated for product `m`.
    pub fn is_dominated_for(&self, rid: RecipeId, m: MaterialId) -> (r: bool)
        requires
            rid < self.dominated_for@.len(),
            crate::algo::prune::in_order(self.dominated_for@[rid as int]@),
        ensures
            r == self.dominated_spec(rid, m),
    {
        let list = &self.dominated_for[rid as usize];
        let mut lo: usize = 0;
        let mut hi: usize = list.len();
        while lo < hi
            invariant
                lo <= hi <= list@.len(),
                list@ == self.dominated_for@[rid as int]@,
                crate::algo::prune::in_order(list@),
                forall|i: int| 0 <= i < lo ==> #[trigger] list@[i] < m,
                forall|i: int| hi <= i < list@.len() ==> #[trigger] list@[i] > m,
            decreases hi - lo,
        {
            let mid: usize = lo + (hi - lo) / 2;
            let x: u32 = list[mid];
            if x == m {
                assert(list@[mid as int] == m);
                return true;
            }
            if x < m {
                lo = mid + 1;
            } else {
                hi = mid;
            }
        }
        false
    }

    /// Whether a material lies on a production cycle.
    pub fn material_cyclic(&self, m: MaterialId) -> (r: bool)
        requires
            m < self.cost.cyclic@.len(),
        ensures
            r == self.cost.cyclic@[m as int],
    {
        self.cost.cyclic[m as usize]
    }
}

} // verus!
