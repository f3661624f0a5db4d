//! Chances of outputs, which the recipe export does not hold.
use vstd::hash_map::StringHashMap;
use vstd::prelude::*;

use crate::scalar::{Arithmetic, Scalar};

verus! {

/// One line of the chances file.
#[derive(Debug)]
pub struct RawChance {
    /// Full name of the recipe.
    pub recipe: String,
    /// Id of the output material.
    pub output: String,
    pub chance: Scalar,
}

/// Chances by recipe and output material. What is not listed has chance one.
pub struct ChanceStore {
    outer: StringHashMap<usize>,
    inner: Vec<StringHashMap<Scalar>>,
    count: usize,
}

/// A chance is a number from zero to one.
pub open spec fn is_chance<A: Arithmetic>(ar: A, c: Scalar) -> bool {
    ar.finite_spec(c) && ar.le_spec(ar.ratio_spec(0, 1), c) && ar.le_spec(c, ar.ratio_spec(1, 1))
}

/// The chances of a file: lines with anything but a chance are left out, and a
/// later line replaces an earlier one.
pub open spec fn chances_of<A: Arithmetic>(ar: A, lines: Seq<RawChance>) -> Map<
    (Seq<char>, Seq<char>),
    Scalar,
>
    decreases lines.len(),
{
    if lines.len() == 0 {
        Map::empty()
    } else {
        let rest = chances_of(ar, lines.drop_last());
        let l = lines.last();
        if is_chance(ar, l.chance) {
            rest.insert((l.recipe@, l.output@), l.chance)
        } else {
            rest
        }
    }
}

impl View for ChanceStore {
    type V = Map<(Seq<char>, Seq<char>), Scalar>;

    closed spec fn view(&self) -> Map<(Seq<char>, Seq<char>), Scalar> {
        Map::new(
            |k: (Seq<char>, Seq<char>)|
                self.outer@.contains_key(k.0) && self.inner@[self.outer@[k.0] as int]@.contains_key(
                    k.1,
                ),
            |k: (Seq<char>, Seq<char>)| self.inner@[self.outer@[k.0] as int]@[k.1],
        )
    }
}

impl ChanceStore {
    /// Every listed recipe has a table of its own.
    pub closed spec fn wf(self) -> bool {
        &&& forall|k: Seq<char>| #[trigger]
            self.outer@.contains_key(k) ==> self.outer@[k] < self.inner@.len()
        &&& forall|j: Seq<char>, k: Seq<char>|
            #![trigger self.outer@[j], self.outer@[k]]
            self.outer@.contains_key(j) && self.outer@.contains_key(k) && j != k ==> self.outer@[j]
                != self.outer@[k]
        &&& self@.dom().finite()
        &&& self.count == self@.dom().len()
    }

    pub fn new() -> (r: Self)
        ensures
            r.wf(),
            r@ == Map::<(Seq<char>, Seq<char>), Scalar>::empty(),
    {
        let r = ChanceStore { outer: StringHashMap::new(), inner: Vec::new(), count: 0 };
        assert(r@ =~= Map::<(Seq<char>, Seq<char>), Scalar>::empty());
        r
    }

    fn insert(&mut self, recipe: &str, output: &str, chance: Scalar)
        requires
            old(self).wf(),
            old(self)@.dom().len() < usize::MAX,
        ensures
            final(self).wf(),
            final(self)@ == old(self)@.insert((recipe@, output@), chance),
    {
        let ghost start = *self;
        let at: usize = match self.outer.get(recipe) {
            Some(i) => *i,
            None => {
                let i: usize = self.inner.len();
                self.inner.push(StringHashMap::new());
                self.outer.insert(recipe.to_owned(), i);
                i
            },
        };
        assert(self@ =~= start@);
        if !self.inner[at].contains_key(output) {
            self.count = self.count + 1;
        }
        self.inner[at].insert(output.to_owned(), chance);
        assert(self@ =~= start@.insert((recipe@, output@), chance));
    }

    /// The chances that the lines of a chances file give.
    pub fn from_raw<A: Arithmetic>(ar: &A, lines: &Vec<RawChance>) -> (r: Self)
        ensures
            r.wf(),
            r@ == chances_of(*ar, lines@),
    {
        let mut r = ChanceStore::new();
        let n: usize = lines.len();
        let mut i: usize = 0;
        while i < n
            invariant
                i <= n,
                n == lines@.len(),
                r.wf(),
                r@ == chances_of(*ar, lines@.take(i as int)),
                r@.dom().len() <= i,
            decreases lines@.len() - i,
        {
            let l = &lines[i];
            assert(lines@.take(i + 1).drop_last() =~= lines@.take(i as int));
            if ar.is_finite(l.chance) && ar.le(ar.ratio(0, 1), l.chance) && ar.le(
                l.chance,
                ar.ratio(1, 1),
            ) {
                r.insert(l.recipe.as_str(), l.output.as_str(), l.chance);
            }
            i += 1;
        }
        assert(lines@.take(i as int) =~= lines@);
        r
    }

    /// The chance of an output; one where none is listed.
    pub open spec fn chance_spec<A: Arithmetic>(self, ar: A, recipe: Seq<char>, material: Seq<char>) -> Scalar {
        if self@.contains_key((recipe, material)) {
            self@[(recipe, material)]
        } else {
            ar.ratio_spec(1, 1)
        }
    }

    /// The chance with which a recipe gives a material.
    pub fn get<A: Arithmetic>(&self, ar: &A, recipe_full_id: &str, material_id: &str) -> (r: Scalar)
        requires
            self.wf(),
        ensures
            r == self.chance_spec(*ar, recipe_full_id@, material_id@),
    {
        match self.outer.get(recipe_full_id) {
            Some(i) => match self.inner[*i].get(material_id) {
                Some(c) => *c,
                None => ar.ratio(1, 1),
            },
            None => ar.ratio(1, 1),
        }
    }

    pub fn len(&self) -> (r: usize)
        requires
            self.wf(),
        ensures
            r == self@.dom().len(),
    {
        self.count
    }

    pub fn is_empty(&self) -> (r: bool)
        requires
            self.wf(),
        ensures
            r == self@.is_empty(),
    {
        proof {
            if self@.dom().len() == 0 {
                self@.dom().lemma_len0_is_empty();
                assert(self@ =~= Map::empty());
            }
        }
        self.count == 0
    }
}

impl Default for ChanceStore {
    fn default() -> (r: Self)
        ensures
            r.wf(),
            r@ == Map::<(Seq<char>, Seq<char>), Scalar>::empty(),
    {
        ChanceStore::new()
    }
}

} // verus!
