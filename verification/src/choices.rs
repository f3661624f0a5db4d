//! Which recipe makes which material.
use vstd::prelude::*;

use crate::graph::KnowledgeGraph;
use crate::model::{MaterialId, RecipeId};

verus! {

/// A recipe for each of some materials, in ascending order of the materials.
pub struct Choices {
    pub entries: Vec<(MaterialId, RecipeId)>,
}

/// The recipe that the entries give a material.
pub open spec fn chosen_in(entries: Seq<(MaterialId, RecipeId)>, m: MaterialId) -> Option<RecipeId>
    decreases entries.len(),
{
    if entries.len() == 0 {
        None
    } else if entries.last().0 == m {
        Some(entries.last().1)
    } else {
        chosen_in(entries.drop_last(), m)
    }
}

/// Each material once, in ascending order.
pub open spec fn by_material(entries: Seq<(MaterialId, RecipeId)>) -> bool {
    forall|a: int, b: int|
        0 <= a < b < entries.len() ==> (#[trigger] entries[a]).0 < (#[trigger] entries[b]).0
}

impl View for Choices {
    type V = Map<MaterialId, RecipeId>;

    open spec fn view(&self) -> Map<MaterialId, RecipeId> {
        Map::new(
            |m: MaterialId| chosen_in(self.entries@, m) is Some,
            |m: MaterialId| chosen_in(self.entries@, m)->0,
        )
    }
}

proof fn chosen_at(entries: Seq<(MaterialId, RecipeId)>, i: int)
    requires
        by_material(entries),
        0 <= i < entries.len(),
    ensures
        chosen_in(entries, entries[i].0) == Some(entries[i].1),
    decreases entries.len(),
{
    if i < entries.len() - 1 {
        assert(entries[i].0 < entries[entries.len() - 1].0);
        chosen_at(entries.drop_last(), i);
        assert(entries.drop_last()[i] == entries[i]);
    }
}

proof fn chosen_nowhere(entries: Seq<(MaterialId, RecipeId)>, m: MaterialId)
    requires
        forall|i: int| 0 <= i < entries.len() ==> (#[trigger] entries[i]).0 != m,
    ensures
        chosen_in(entries, m) is None,
    decreases entries.len(),
{
    if entries.len() > 0 {
        assert(entries[entries.len() - 1].0 != m);
        assert forall|i: int| 0 <= i < entries.len() - 1 implies (
        #[trigger] entries.drop_last()[i]).0 != m by {
            assert(entries.drop_last()[i] == entries[i]);
        }
        chosen_nowhere(entries.drop_last(), m);
    }
}

impl Choices {
    pub open spec fn wf(self) -> bool {
        by_material(self.entries@)
    }

    /// The materials and recipes are those of the graph.
    pub open spec fn fits(self, g: KnowledgeGraph) -> bool {
        &&& self.wf()
        &&& forall|i: int|
            0 <= i < self.entries@.len() ==> (#[trigger] self.entries@[i]).0 < g.m_count()
                && self.entries@[i].1 < g.r_count()
    }

    /// The recipe of each entry is the one that is found for its material, and
    /// nothing else is found.
    pub proof fn found(self)
        requires
            self.wf(),
        ensures
            forall|i: int|
                0 <= i < self.entries@.len() ==> chosen_in(
                    self.entries@,
                    (#[trigger] self.entries@[i]).0,
                ) == Some(self.entries@[i].1),
            forall|m: MaterialId| #[trigger]
                chosen_in(self.entries@, m) matches Some(r) ==> self.entries@.contains((m, r)),
    {
        assert forall|i: int| 0 <= i < self.entries@.len() implies chosen_in(
            self.entries@,
            (#[trigger] self.entries@[i]).0,
        ) == Some(self.entries@[i].1) by {
            chosen_at(self.entries@, i);
        }
        assert forall|m: MaterialId| #[trigger]
            chosen_in(self.entries@, m) is Some implies self.entries@.contains(
            (m, chosen_in(self.entries@, m)->0),
        ) by {
            if forall|i: int| 0 <= i < self.entries@.len() ==> (#[trigger] self.entries@[i]).0 != m {
                chosen_nowhere(self.entries@, m);
            } else {
                let i = choose|i: int|
                    0 <= i < self.entries@.len() && (#[trigger] self.entries@[i]).0 == m;
                chosen_at(self.entries@, i);
            }
        }
    }

    pub fn new() -> (r: Self)
        ensures
            r.wf(),
            r.entries@.len() == 0,
    {
        Choices { entries: Vec::new() }
    }

    /// The recipe that is chosen for a material.
    pub fn get(&self, m: MaterialId) -> (r: Option<RecipeId>)
        requires
            self.wf(),
        ensures
            r == chosen_in(self.entries@, m),
    {
        let mut lo: usize = 0;
        let mut hi: usize = self.entries.len();
        while lo < hi
            invariant
                lo <= hi <= self.entries@.len(),
                self.wf(),
                forall|i: int| 0 <= i < lo ==> (#[trigger] self.entries@[i]).0 < m,
                forall|i: int| hi <= i < self.entries@.len() ==> (#[trigger] self.entries@[i]).0 > m,
            decreases hi - lo,
        {
            let mid: usize = lo + (hi - lo) / 2;
            let (x, r): (u32, u32) = self.entries[mid];
            if x == m {
                proof {
                    chosen_at(self.entries@, mid as int);
                }
                return Some(r);
            }
            if x < m {
                lo = mid + 1;
            } else {
                hi = mid;
            }
        }
        proof {
            chosen_nowhere(self.entries@, m);
        }
        None
    }

    /// Chooses a recipe for a material.
    pub fn insert(&mut self, m: MaterialId, r: RecipeId)
        requires
            old(self).wf(),
        ensures
            final(self).wf(),
            final(self).entries@ == with_choice(old(self).entries@, m, r),
            forall|k: MaterialId| #[trigger]
                chosen_in(final(self).entries@, k) == if k == m {
                    Some(r)
                } else {
                    chosen_in(old(self).entries@, k)
                },
    {
        let ghost start = self.entries@;
        let mut i: usize = self.entries.len();
        assert(start.take(i as int) =~= start);
        assert(with_choice(start, m, r) =~= with_choice(start.take(i as int), m, r) + start.skip(
            i as int,
        ));
        while i > 0 && self.entries[i - 1].0 > m
            invariant
                i <= start.len(),
                self.entries@ == start,
                with_choice(start, m, r) == with_choice(start.take(i as int), m, r) + start.skip(
                    i as int,
                ),
            decreases i,
        {
            assert(start.take(i as int).drop_last() =~= start.take(i - 1));
            assert(with_choice(start.take(i - 1), m, r).push(start[i - 1]) + start.skip(i as int)
                =~= with_choice(start.take(i - 1), m, r) + start.skip(i - 1));
            i -= 1;
        }
        if i > 0 && self.entries[i - 1].0 == m {
            self.entries[i - 1] = (m, r);
            assert(self.entries@ =~= start.take(i as int).drop_last().push((m, r)) + start.skip(
                i as int,
            ));
        } else {
            self.entries.insert(i, (m, r));
            assert(self.entries@ =~= start.take(i as int).push((m, r)) + start.skip(i as int));
            if i == 0 {
                assert(start.take(0).push((m, r)) =~= seq![(m, r)]);
            }
        }
        proof {
            with_choice_wf(start, m, r);
        }
    }

    /// The materials for which a recipe is chosen, in ascending order.
    pub fn materials(&self) -> (r: Vec<MaterialId>)
        ensures
            r@.len() == self.entries@.len(),
            forall|i: int| 0 <= i < r@.len() ==> #[trigger] r@[i] == self.entries@[i].0,
    {
        let mut r: Vec<MaterialId> = Vec::new();
        let mut i: usize = 0;
        while i < self.entries.len()
            invariant
                i <= self.entries@.len(),
                r@.len() == i,
                forall|k: int| 0 <= k < i ==> #[trigger] r@[k] == self.entries@[k].0,
            decreases self.entries@.len() - i,
        {
            r.push(self.entries[i].0);
            i += 1;
        }
        r
    }
}

impl Clone for Choices {
    fn clone(&self) -> (r: Self)
        ensures
            r.entries@ == self.entries@,
    {
        let mut entries: Vec<(MaterialId, RecipeId)> = Vec::new();
        let mut i: usize = 0;
        while i < self.entries.len()
            invariant
                i <= self.entries@.len(),
                entries@ == self.entries@.take(i as int),
            decreases self.entries@.len() - i,
        {
            entries.push(self.entries[i]);
            i += 1;
            assert(entries@ =~= self.entries@.take(i as int));
        }
        assert(entries@ =~= self.entries@);
        Choices { entries }
    }
}

/// The entries after recipe `r` was chosen for `m`.
pub open spec fn with_choice(
    entries: Seq<(MaterialId, RecipeId)>,
    m: MaterialId,
    r: RecipeId,
) -> Seq<(MaterialId, RecipeId)>
    decreases entries.len(),
{
    if entries.len() == 0 {
        seq![(m, r)]
    } else if entries.last().0 == m {
        entries.drop_last().push((m, r))
    } else if entries.last().0 < m {
        entries.push((m, r))
    } else {
        with_choice(entries.drop_last(), m, r).push(entries.last())
    }
}

proof fn with_choice_wf(entries: Seq<(MaterialId, RecipeId)>, m: MaterialId, r: RecipeId)
    requires
        by_material(entries),
    ensures
        by_material(with_choice(entries, m, r)),
        forall|i: int|
            #![trigger with_choice(entries, m, r)[i]]
            0 <= i < with_choice(entries, m, r).len() ==> with_choice(entries, m, r)[i] == (m, r)
                || entries.contains(with_choice(entries, m, r)[i]),
        forall|k: MaterialId| #[trigger]
            chosen_in(with_choice(entries, m, r), k) == if k == m {
                Some(r)
            } else {
                chosen_in(entries, k)
            },
    decreases entries.len(),
{
    let out = with_choice(entries, m, r);
    if entries.len() == 0 {
        assert(out.drop_last() =~= entries);
    } else {
        let short = entries.drop_last();
        assert forall|x: (MaterialId, RecipeId)| #[trigger] short.contains(x) implies entries.contains(
            x,
        ) by {
            let i = choose|i: int| 0 <= i < short.len() && short[i] == x;
            assert(entries[i] == x);
        }
        assert(entries[entries.len() - 1] == entries.last());
        if entries.last().0 == m {
            assert(out.drop_last() =~= short);
            assert forall|i: int| #![trigger out[i]] 0 <= i < out.len() implies out[i] == (m, r)
                || entries.contains(out[i]) by {
                if i < short.len() {
                    assert(out[i] == entries[i]);
                }
            }
        } else if entries.last().0 < m {
            assert(out.drop_last() =~= entries);
            assert forall|i: int| #![trigger out[i]] 0 <= i < out.len() implies out[i] == (m, r)
                || entries.contains(out[i]) by {
                if i < entries.len() {
                    assert(out[i] == entries[i]);
                }
            }
        } else {
            with_choice_wf(short, m, r);
            let e = with_choice(short, m, r);
            assert(out.drop_last() =~= e);
            assert forall|i: int| #![trigger out[i]] 0 <= i < out.len() implies out[i] == (m, r)
                || entries.contains(out[i]) by {
                if i < e.len() {
                    assert(out[i] == e[i]);
                }
            }
            assert forall|a: int, b: int| 0 <= a < b < out.len() implies (#[trigger] out[a]).0 < (
            #[trigger] out[b]).0 by {
                assert(out[a] == e[a]);
                if b == e.len() {
                    if e[a] != (m, r) {
                        let c = choose|c: int| 0 <= c < short.len() && short[c] == e[a];
                        assert(entries[c].0 < entries[entries.len() - 1].0);
                    }
                } else {
                    assert(e[a].0 < e[b].0);
                }
            }
        }
    }
}

/// Choosing a recipe keeps the materials and recipes those of the graph, and
/// changes nothing else.
pub proof fn with_choice_fits(g: KnowledgeGraph, a: Choices, b: Choices, m: MaterialId, r: RecipeId)
    requires
        a.fits(g),
        m < g.m_count(),
        r < g.r_count(),
        b.entries@ == with_choice(a.entries@, m, r),
    ensures
        b.fits(g),
        forall|i: int|
            0 <= i < b.entries@.len() ==> #[trigger] b.entries@[i] == (m, r) || a.entries@.contains(
                b.entries@[i],
            ),
{
    with_choice_wf(a.entries@, m, r);
    assert forall|i: int| 0 <= i < b.entries@.len() implies (#[trigger] b.entries@[i]).0
        < g.m_count() && b.entries@[i].1 < g.r_count() by {
        assert(with_choice(a.entries@, m, r)[i] == (m, r) || a.entries@.contains(b.entries@[i]));
        if b.entries@[i] != (m, r) {
            let k = choose|k: int| 0 <= k < a.entries@.len() && a.entries@[k] == b.entries@[i];
            assert(a.entries@[k].0 < g.m_count());
        }
    }
}

} // verus!
