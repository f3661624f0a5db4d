//! Names of machines, materials, blocks, items and fluids, by id.
use vstd::hash_map::StringHashMap;
use vstd::prelude::*;

use crate::model::copy_option;

verus! {

/// The names of one id.
#[derive(Debug)]
pub struct NameEntry {
    pub en: String,
    pub zh: String,
    /// Tier of a machine (LV, MV, ...).
    pub tier: Option<String>,
    /// Number of that tier.
    pub tier_index: Option<u8>,
}

/// The names file, as it is read.
#[derive(Debug)]
pub struct RawNames {
    pub machines: Vec<RawName>,
    pub materials: Vec<RawName>,
    pub blocks: Vec<RawName>,
    pub items: Vec<RawName>,
    pub fluids: Vec<RawName>,
}

#[derive(Debug)]
pub struct RawName {
    pub id: String,
    pub en: String,
    pub zh: String,
    pub tier: Option<String>,
    pub tier_index: Option<u8>,
}

/// All names. They are found by id: a translation key may be shared by several
/// materials.
pub struct NameStore {
    map: StringHashMap<NameEntry>,
}

/// What is kept of a name; only machines have a tier.
pub open spec fn entry_of(n: RawName, with_tier: bool) -> NameEntry {
    NameEntry {
        en: n.en,
        zh: n.zh,
        tier: if with_tier { n.tier } else { None },
        tier_index: if with_tier { n.tier_index } else { None },
    }
}

/// The names after a list was entered: a later entry replaces an earlier one of
/// the same id.
pub open spec fn entered(
    m: Map<Seq<char>, NameEntry>,
    items: Seq<RawName>,
    with_tier: bool,
) -> Map<Seq<char>, NameEntry>
    decreases items.len(),
{
    if items.len() == 0 {
        m
    } else {
        entered(m, items.drop_last(), with_tier).insert(
            items.last().id@,
            entry_of(items.last(), with_tier),
        )
    }
}

/// The names of a file. Machines come last, so that a machine keeps its tier
/// when a block has the same id.
pub open spec fn names_of(raw: RawNames) -> Map<Seq<char>, NameEntry> {
    let blocks = entered(Map::empty(), raw.blocks@, false);
    let items = entered(blocks, raw.items@, false);
    let fluids = entered(items, raw.fluids@, false);
    let materials = entered(fluids, raw.materials@, false);
    entered(materials, raw.machines@, true)
}

/// The Chinese name of an id, or the fallback.
pub open spec fn zh_name(m: Map<Seq<char>, NameEntry>, id: Seq<char>, fallback: Seq<char>) -> Seq<char> {
    if m.contains_key(id) && m[id].zh@.len() > 0 {
        m[id].zh@
    } else {
        fallback
    }
}

/// The English name of an id, or the fallback.
pub open spec fn en_name(m: Map<Seq<char>, NameEntry>, id: Seq<char>, fallback: Seq<char>) -> Seq<char> {
    if m.contains_key(id) && m[id].en@.len() > 0 {
        m[id].en@
    } else {
        fallback
    }
}

impl View for NameStore {
    type V = Map<Seq<char>, NameEntry>;

    closed spec fn view(&self) -> Map<Seq<char>, NameEntry> {
        self.map@
    }
}

impl NameStore {
    pub fn new() -> (r: Self)
        ensures
            r@ == Map::<Seq<char>, NameEntry>::empty(),
    {
        NameStore { map: StringHashMap::new() }
    }

    fn enter(&mut self, items: &Vec<RawName>, with_tier: bool)
        ensures
            final(self)@ == entered(old(self)@, items@, with_tier),
    {
        let ghost start = self@;
        let mut i: usize = 0;
        while i < items.len()
            invariant
                i <= items@.len(),
                self@ == entered(start, items@.take(i as int), with_tier),
            decreases items@.len() - i,
        {
            let n = &items[i];
            let e = NameEntry {
                en: n.en.clone(),
                zh: n.zh.clone(),
                tier: if with_tier {
                    copy_option(&n.tier)
                } else {
                    None
                },
                tier_index: if with_tier {
                    n.tier_index
                } else {
                    None
                },
            };
            self.map.insert(n.id.clone(), e);
            assert(items@.take(i + 1).drop_last() =~= items@.take(i as int));
            i += 1;
        }
        assert(items@.take(i as int) =~= items@);
    }

    /// The names that a names file gives.
    pub fn from_raw(raw: &RawNames) -> (r: Self)
        ensures
            r@ == names_of(*raw),
    {
        let mut r = NameStore::new();
        r.enter(&raw.blocks, false);
        r.enter(&raw.items, false);
        r.enter(&raw.fluids, false);
        r.enter(&raw.materials, false);
        r.enter(&raw.machines, true);
        r
    }

    pub fn get(&self, id: &str) -> (r: Option<&NameEntry>)
        ensures
            r is Some == self@.contains_key(id@),
            r matches Some(e) ==> *e == self@[id@],
    {
        self.map.get(id)
    }

    pub fn len(&self) -> (r: usize)
        ensures
            r == self@.len(),
    {
        self.map.len()
    }

    pub fn is_empty(&self) -> (r: bool)
        ensures
            r == self@.is_empty(),
    {
        self.map.is_empty()
    }

    /// The Chinese name; `fallback` where none is known.
    pub fn zh_or<'a>(&'a self, id: &str, fallback: &'a str) -> (r: &'a str)
        ensures
            r@ == zh_name(self@, id@, fallback@),
    {
        match self.map.get(id) {
            Some(e) => if e.zh.as_str().is_empty() {
                fallback
            } else {
                e.zh.as_str()
            },
            None => fallback,
        }
    }

    /// The English name; `fallback` where none is known.
    pub fn en_or<'a>(&'a self, id: &str, fallback: &'a str) -> (r: &'a str)
        ensures
            r@ == en_name(self@, id@, fallback@),
    {
        match self.map.get(id) {
            Some(e) => if e.en.as_str().is_empty() {
                fallback
            } else {
                e.en.as_str()
            },
            None => fallback,
        }
    }
}

impl Default for NameStore {
    fn default() -> (r: Self)
        ensures
            r@ == Map::<Seq<char>, NameEntry>::empty(),
    {
        NameStore::new()
    }
}

/// A machine's own entry wins over every other entry of its id.
pub proof fn machines_win(raw: RawNames, id: Seq<char>)
    requires
        raw.machines@.len() > 0,
        raw.machines@.last().id@ == id,
    ensures
        names_of(raw).contains_key(id),
        names_of(raw)[id] == entry_of(raw.machines@.last(), true),
{
}

} // verus!
