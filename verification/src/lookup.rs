//! What is found under a name.
use vstd::prelude::*;

use crate::chances::{chances_of, is_chance, ChanceStore, RawChance};
use crate::names::{en_name, entered, names_of, zh_name, NameEntry, RawName, RawNames};
use crate::scalar::{Arithmetic, Scalar};

verus! {

/// The last item of that id.
pub open spec fn last_of(items: Seq<RawName>, id: Seq<char>) -> Option<RawName>
    decreases items.len(),
{
    if items.len() == 0 {
        None
    } else if items.last().id@ == id {
        Some(items.last())
    } else {
        last_of(items.drop_last(), id)
    }
}

/// Entering a list of names leaves under each id its last item there, and what was
/// there before where the list does not name it.
pub proof fn last_name_wins(
    m: Map<Seq<char>, NameEntry>,
    items: Seq<RawName>,
    with_tier: bool,
    id: Seq<char>,
)
    ensures
        ({
            let now = entered(m, items, with_tier);
            match last_of(items, id) {
                Some(n) => now.contains_key(id) && now[id].en == n.en && now[id].zh == n.zh && (
                with_tier ==> now[id].tier == n.tier && now[id].tier_index == n.tier_index) && (
                !with_tier ==> now[id].tier is None && now[id].tier_index is None),
                None => now.contains_key(id) == m.contains_key(id) && (m.contains_key(id)
                    ==> now[id] == m[id]),
            }
        }),
    decreases items.len(),
{
    if items.len() > 0 {
        last_name_wins(m, items.drop_last(), with_tier, id);
    }
}

/// What is known under an id: what the machines say of it, else the materials, else
/// the fluids, else the items, else the blocks. Only machines have a tier.
pub proof fn names_have_precedence(raw: RawNames, id: Seq<char>)
    ensures
        ({
            let found = match (
                last_of(raw.machines@, id),
                last_of(raw.materials@, id),
                last_of(raw.fluids@, id),
                last_of(raw.items@, id),
                last_of(raw.blocks@, id),
            ) {
                (Some(n), _, _, _, _) => Some(n),
                (None, Some(n), _, _, _) => Some(n),
                (None, None, Some(n), _, _) => Some(n),
                (None, None, None, Some(n), _) => Some(n),
                (None, None, None, None, b) => b,
            };
            &&& names_of(raw).contains_key(id) == found is Some
            &&& found matches Some(n) ==> names_of(raw)[id].en == n.en && names_of(raw)[id].zh
                == n.zh
            &&& last_of(raw.machines@, id) matches Some(n) ==> names_of(raw)[id].tier == n.tier
                && names_of(raw)[id].tier_index == n.tier_index
            &&& last_of(raw.machines@, id) is None && found is Some ==> names_of(raw)[id].tier is None
        }),
{
    let none = Map::<Seq<char>, NameEntry>::empty();
    let blocks = entered(none, raw.blocks@, false);
    let items = entered(blocks, raw.items@, false);
    let fluids = entered(items, raw.fluids@, false);
    let materials = entered(fluids, raw.materials@, false);
    last_name_wins(none, raw.blocks@, false, id);
    last_name_wins(blocks, raw.items@, false, id);
    last_name_wins(items, raw.fluids@, false, id);
    last_name_wins(fluids, raw.materials@, false, id);
    last_name_wins(materials, raw.machines@, true, id);
}

/// A name that is empty or not there gives way to the readable id.
pub proof fn names_fall_back(m: Map<Seq<char>, NameEntry>, id: Seq<char>, fallback: Seq<char>)
    ensures
        !m.contains_key(id) ==> zh_name(m, id, fallback) == fallback && en_name(m, id, fallback)
            == fallback,
        m.contains_key(id) && m[id].zh@.len() > 0 ==> zh_name(m, id, fallback) == m[id].zh@,
        m.contains_key(id) && m[id].zh@.len() == 0 ==> zh_name(m, id, fallback) == fallback,
        m.contains_key(id) && m[id].en@.len() > 0 ==> en_name(m, id, fallback) == m[id].en@,
        m.contains_key(id) && m[id].en@.len() == 0 ==> en_name(m, id, fallback) == fallback,
{
}

/// The chance that the last line about an output gives it, of those lines that give
/// a number between nothing and one.
pub open spec fn last_chance<A: Arithmetic>(
    ar: A,
    lines: Seq<RawChance>,
    recipe: Seq<char>,
    output: Seq<char>,
) -> Option<Scalar>
    decreases lines.len(),
{
    if lines.len() == 0 {
        None
    } else {
        let l = lines.last();
        if l.recipe@ == recipe && l.output@ == output && ar.finite_spec(l.chance) && ar.le_spec(
            ar.ratio_spec(0, 1),
            l.chance,
        ) && ar.le_spec(l.chance, ar.ratio_spec(1, 1)) {
            Some(l.chance)
        } else {
            last_chance(ar, lines.drop_last(), recipe, output)
        }
    }
}

/// The last good line about an output counts, and others do not.
pub proof fn last_chance_counts<A: Arithmetic>(
    ar: A,
    lines: Seq<RawChance>,
    recipe: Seq<char>,
    output: Seq<char>,
)
    ensures
        match last_chance(ar, lines, recipe, output) {
            Some(c) => chances_of(ar, lines).contains_key((recipe, output)) && chances_of(
                ar,
                lines,
            )[(recipe, output)] == c && is_chance(ar, c),
            None => !chances_of(ar, lines).contains_key((recipe, output)),
        },
    decreases lines.len(),
{
    if lines.len() > 0 {
        last_chance_counts(ar, lines.drop_last(), recipe, output);
    }
}

/// An output of which no chance is known comes out every time.
pub proof fn unknown_chances_are_certain<A: Arithmetic>(
    ar: A,
    store: ChanceStore,
    lines: Seq<RawChance>,
    recipe: Seq<char>,
    output: Seq<char>,
)
    requires
        store@ == chances_of(ar, lines),
    ensures
        store.chance_spec(ar, recipe, output) == match last_chance(ar, lines, recipe, output) {
            Some(c) => c,
            None => ar.ratio_spec(1, 1),
        },
{
    last_chance_counts(ar, lines, recipe, output);
}

} // verus!
