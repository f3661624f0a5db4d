//! What a search for materials finds.
use vstd::prelude::*;

use crate::graph::KnowledgeGraph;
use crate::model::{MaterialId, MaterialKind};

verus! {

impl KnowledgeGraph {
    /// A material matches: it is of the kind that is asked for, and its id or its name
    /// holds what is looked for, whatever the case of the letters.
    pub open spec fn matches_query(self, query: Seq<char>, kind: Option<MaterialKind>, m: MaterialId) -> bool {
        let q = crate::text::lowercase(crate::text::trimmed(query));
        &&& m < self.m_count()
        &&& q.len() > 0
        &&& kind matches Some(k) ==> self.materials@[m as int].key.kind == k
        &&& crate::text::occurs(crate::text::lowercase(self.id_text(m)), q) || crate::text::occurs(
            crate::text::lowercase(self.materials@[m as int].display@),
            q,
        )
    }

    /// One material comes no later than another: its id, from the colon on, is
    /// shorter, or as long and its id no greater.
    pub open spec fn comes_no_later(self, a: MaterialId, b: MaterialId) -> bool {
        let la = vstd::utf8::encode_utf8(self.short_text(a)).len() as usize;
        let lb = vstd::utf8::encode_utf8(self.short_text(b)).len() as usize;
        la < lb || (la == lb && !crate::text::text_before(self.id_text(b), self.id_text(a)))
    }

    proof fn hits_match(
        self,
        q: Seq<char>,
        ids: Seq<String>,
        names: Seq<String>,
        kind: Option<MaterialKind>,
        n: int,
    )
        requires
            0 <= n <= u32::MAX,
        ensures
            ({
                let hits = self.hits(q, ids, names, kind, n);
                &&& hits.len() <= n
                &&& forall|k: int|
                    0 <= k < hits.len() ==> (#[trigger] hits[k]) < n && self.is_hit(
                        q,
                        ids,
                        names,
                        kind,
                        hits[k] as int,
                    )
                &&& forall|i: int|
                    0 <= i < n && #[trigger] self.is_hit(q, ids, names, kind, i) ==> hits.contains(
                        i as u32,
                    )
                &&& forall|a: int, b: int|
                    0 <= a < b < hits.len() ==> #[trigger] hits[a] < #[trigger] hits[b]
            }),
        decreases n,
    {
        if n > 0 {
            self.hits_match(q, ids, names, kind, n - 1);
            let rest = self.hits(q, ids, names, kind, n - 1);
            let hits = self.hits(q, ids, names, kind, n);
            assert forall|i: int|
                0 <= i < n && #[trigger] self.is_hit(q, ids, names, kind, i) implies hits.contains(
                i as u32,
            ) by {
                if i < n - 1 {
                    assert(rest.contains(i as u32));
                    let k = choose|k: int| 0 <= k < rest.len() && rest[k] == i as u32;
                    assert(hits[k] == i as u32);
                } else {
                    assert(hits[rest.len() as int] == i as u32);
                }
            }
        }
    }

    /// A search finds the materials that match, and no others, those with the shortest
    /// ids first; all of them, or as many as are asked for, none of which comes later
    /// than one that is left out.
    pub proof fn search_finds_matches(
        self,
        query: Seq<char>,
        kind: Option<MaterialKind>,
        limit: nat,
        r: Seq<MaterialId>,
    )
        requires
            self.wf(),
            self.searches(query, kind, limit, r),
        ensures
            r.len() <= limit,
            forall|i: int| 0 <= i < r.len() ==> self.matches_query(query, kind, #[trigger] r[i]),
            r.no_duplicates(),
            forall|i: int, j: int|
                0 <= i < j < r.len() ==> self.comes_no_later(#[trigger] r[i], #[trigger] r[j]),
            forall|m: MaterialId| #[trigger]
                self.matches_query(query, kind, m) ==> r.contains(m) || (r.len() == limit
                    && forall|i: int|
                    0 <= i < r.len() ==> self.comes_no_later(#[trigger] r[i], m)),
    {
        let q = crate::text::lowercase(crate::text::trimmed(query));
        let (ids, names) = choose|ids: Seq<String>, names: Seq<String>| #[trigger]
            self.lowered(ids, names) && self.found(q, ids, names, kind, limit, r);
        let n = self.m_count();
        let hits = self.hits(q, ids, names, kind, n);
        self.hits_match(q, ids, names, kind, n);
        if q.len() > 0 {
            let before = self.by_name(hits);
            let p = choose|p: Seq<usize>|
                #[trigger] crate::order::stable_order(before, hits.len() as int, p) && r
                    == crate::order::listed(hits, p).take(
                    if hits.len() < limit {
                        hits.len() as int
                    } else {
                        limit as int
                    },
                );
            let all = crate::order::listed(hits, p);
            crate::graph::names_order(&self, hits);
            crate::order::stable_order_is_permutation(before, hits.len() as int, p);
            assert forall|i: int, j: int| 0 <= i < j < all.len() implies self.comes_no_later(
                #[trigger] all[i],
                #[trigger] all[j],
            ) && all[i] != all[j] by {
                assert(crate::order::ahead(before, p[i] as int, p[j] as int));
                let (a, b) = (p[i] as int, p[j] as int);
                assert(p[i] != p[j]);
                assert(hits[a] == all[i] && hits[b] == all[j]);
                if a < b {
                    assert(hits[a] < hits[b]);
                } else {
                    assert(hits[b] < hits[a]);
                }
                if before(a, b) && before(b, a) {
                    assert(before(a, a));
                }
            }
            assert forall|i: int| 0 <= i < r.len() implies self.matches_query(
                query,
                kind,
                #[trigger] r[i],
            ) by {
                assert(r[i] == all[i]);
                assert(hits[p[i] as int] == all[i]);
                assert(ids[r[i] as int]@ == crate::text::lowercase(self.id_text(r[i])));
                assert(names[r[i] as int]@ == crate::text::lowercase(
                    self.materials@[r[i] as int].display@,
                ));
            }
            assert forall|i: int, j: int| 0 <= i < r.len() && 0 <= j < r.len() && i != j implies r[i]
                != r[j] by {
                assert(r[i] == all[i] && r[j] == all[j]);
                if i < j {
                    assert(all[i] != all[j]);
                } else {
                    assert(all[j] != all[i]);
                }
            }
            assert forall|m: MaterialId| #[trigger] self.matches_query(query, kind, m) implies r.contains(
                m,
            ) || (r.len() == limit && forall|i: int|
                0 <= i < r.len() ==> self.comes_no_later(#[trigger] r[i], m)) by {
                assert(ids[m as int]@ == crate::text::lowercase(self.id_text(m)));
                assert(names[m as int]@ == crate::text::lowercase(
                    self.materials@[m as int].display@,
                ));
                assert(self.is_hit(q, ids, names, kind, m as int));
                assert(hits.contains(m as int as u32));
                let k = choose|k: int| 0 <= k < hits.len() && hits[k] == m;
                assert(k as usize == k);
                assert(p.contains(k as usize));
                let j = choose|j: int| 0 <= j < p.len() && p[j] == k as usize;
                assert(all[j] == m);
                if j < r.len() {
                    assert(r[j] == m);
                } else {
                    assert forall|i: int| 0 <= i < r.len() implies self.comes_no_later(
                        #[trigger] r[i],
                        m,
                    ) by {
                        assert(r[i] == all[i]);
                        assert(self.comes_no_later(all[i], all[j]));
                    }
                }
            }
        }
    }
}

} // verus!
