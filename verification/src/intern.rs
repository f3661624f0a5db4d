//! String interning: repeated strings (material ids, NBT, type names) become
//! small numbers.
use vstd::hash_map::StringHashMap;
use vstd::prelude::*;

verus! {

/// A table of distinct strings, numbered in the order of their first
/// appearance.
pub struct Interner {
    map: StringHashMap<u32>,
    vec: Vec<String>,
}

/// The contents of a list of strings.
pub open spec fn texts(v: Seq<String>) -> Seq<Seq<char>> {
    v.map_values(|s: String| s@)
}

impl View for Interner {
    type V = Seq<Seq<char>>;

    /// The strings of the table; a string's number is its position.
    closed spec fn view(&self) -> Seq<Seq<char>> {
        texts(self.vec@)
    }
}

/// The table after one more string has been seen.
pub open spec fn interned(t: Seq<Seq<char>>, s: Seq<char>) -> Seq<Seq<char>> {
    if t.contains(s) {
        t
    } else {
        t.push(s)
    }
}

impl Interner {
    /// No string occurs twice, and the index finds exactly the strings of the
    /// table.
    pub closed spec fn wf(self) -> bool {
        &&& self.vec@.len() <= u32::MAX
        &&& forall|s: Seq<char>| #[trigger]
            self.map@.contains_key(s) ==> self.map@[s] < self.vec@.len()
                && self.vec@[self.map@[s] as int]@ == s
        &&& forall|i: int|
            0 <= i < self.vec@.len() ==> self.map@.contains_key((#[trigger] self.vec@[i])@)
                && self.map@[self.vec@[i]@] == i
    }

    /// Each string of a table has one number.
    pub proof fn distinct(self)
        requires
            self.wf(),
        ensures
            self@.no_duplicates(),
            self@.len() <= u32::MAX,
    {
        assert forall|i: int, j: int| 0 <= i < j < self@.len() implies self@[i] != self@[j] by {
            assert(self@[i] == self.vec@[i]@);
            assert(self@[j] == self.vec@[j]@);
        }
    }

    /// The empty table.
    pub fn new() -> (r: Self)
        ensures
            r.wf(),
            r@ == Seq::<Seq<char>>::empty(),
    {
        let r = Interner { map: StringHashMap::new(), vec: Vec::new() };
        assert(r@ =~= Seq::<Seq<char>>::empty());
        r
    }

    /// Enters a string and returns its number; a string that is already there
    /// keeps its own.
    pub fn intern(&mut self, s: &str) -> (id: u32)
        requires
            old(self).wf(),
            old(self)@.len() < u32::MAX || old(self)@.contains(s@),
        ensures
            final(self).wf(),
            final(self)@ == interned(old(self)@, s@),
            id < final(self)@.len(),
            final(self)@[id as int] == s@,
    {
        if let Some(id) = self.map.get(s) {
            let id: u32 = *id;
            assert(self@[id as int] == s@);
            return id;
        }
        proof {
            if self@.contains(s@) {
                let i = choose|i: int| 0 <= i < self@.len() && self@[i] == s@;
                assert(self.vec@[i]@ == s@);
            }
        }
        let id: u32 = self.vec.len() as u32;
        let ghost before = *self;
        self.vec.push(s.to_owned());
        self.map.insert(s.to_owned(), id);
        assert(self@ =~= before@.push(s@));
        assert forall|i: int| 0 <= i < self.vec@.len() implies self.map@.contains_key(
            (#[trigger] self.vec@[i])@,
        ) && self.map@[self.vec@[i]@] == i by {
            if i < before.vec@.len() {
                assert(self.vec@[i] == before.vec@[i]);
                assert(before.map@.contains_key(before.vec@[i]@));
                if before.vec@[i]@ == s@ {
                    assert(before@[i] == s@);
                }
            }
        }
        id
    }

    /// The number of a string that was entered before.
    pub fn lookup(&self, s: &str) -> (r: Option<u32>)
        requires
            self.wf(),
        ensures
            r is Some == self@.contains(s@),
            r matches Some(id) ==> id < self@.len() && self@[id as int] == s@,
    {
        match self.map.get(s) {
            Some(id) => {
                assert(self@[*id as int] == s@);
                Some(*id)
            },
            None => {
                proof {
                    if self@.contains(s@) {
                        let i = choose|i: int| 0 <= i < self@.len() && self@[i] == s@;
                        assert(self.vec@[i]@ == s@);
                    }
                }
                None
            },
        }
    }

    /// The string of a number of this table.
    pub fn get(&self, id: u32) -> (r: &str)
        requires
            id < self@.len(),
        ensures
            r@ == self@[id as int],
    {
        self.vec[id as usize].as_str()
    }

    /// How many strings the table holds.
    pub fn len(&self) -> (r: usize)
        ensures
            r == self@.len(),
    {
        self.vec.len()
    }

    pub fn is_empty(&self) -> (r: bool)
        ensures
            r == (self@.len() == 0),
    {
        self.vec.len() == 0
    }
}

impl Default for Interner {
    fn default() -> (r: Self)
        ensures
            r.wf(),
            r@ == Seq::<Seq<char>>::empty(),
    {
        Interner::new()
    }
}

/// Entering a string that is in the table changes nothing and gives the number
/// it had; two different strings have different numbers.
pub proof fn interning_is_injective(t: Interner, s: Seq<char>, i: int, j: int)
    requires
        t.wf(),
        0 <= i < t@.len(),
        0 <= j < t@.len(),
    ensures
        t@.contains(s) ==> interned(t@, s) == t@,
        t@[i] == t@[j] <==> i == j,
        interned(interned(t@, s), s) == interned(t@, s),
        forall|k: int| 0 <= k < t@.len() ==> #[trigger] interned(t@, s)[k] == t@[k],
{
    t.distinct();
    assert(t@.push(s).last() == s);
}

} // verus!
