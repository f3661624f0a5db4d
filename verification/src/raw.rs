//! The recipe export as it is read, before it is given a meaning.
use vstd::prelude::*;

use crate::scalar::Scalar;

verus! {

#[derive(Debug)]
pub struct RawRoot {
    pub format: String,
    pub version: u32,
    pub minecraft_version: String,
    pub exported_at: String,
    pub include_hidden: bool,
    pub categories: Vec<RawCategory>,
    pub summary: Option<RawSummary>,
}

#[derive(Debug)]
pub struct RawSummary {
    pub category_count: u64,
    pub recipe_count: u64,
}

#[derive(Debug)]
pub struct RawCategory {
    pub ty: String,
    pub title: String,
    pub recipe_class: Option<String>,
    pub catalysts: Vec<RawCatalyst>,
    pub recipes: Vec<RawRecipe>,
}

#[derive(Debug)]
pub struct RawCatalyst {
    pub ty: String,
    pub id: String,
    pub count: Option<u64>,
}

#[derive(Debug)]
pub struct RawRecipe {
    pub id: String,
    pub inputs: Vec<RawSlot>,
    pub outputs: Vec<RawSlot>,
    pub gt: Option<RawGt>,
}

/// The machine data of a recipe.
#[derive(Debug)]
pub struct RawGt {
    pub recipe_type: Option<String>,
    pub duration: u32,
    pub parallels: u32,
    pub eut: Scalar,
    pub amperage: Scalar,
    /// `in` or `out`; anything else carries no energy.
    pub energy_io: Option<String>,
    pub tier: Option<String>,
    pub tier_index: Option<u8>,
    pub voltage: Scalar,
    pub total_eu_t: Scalar,
    pub total_eu: Scalar,
}

#[derive(Debug)]
pub struct RawSlot {
    pub name: String,
    pub ingredients: Vec<RawIngredient>,
}

/// An ingredient: an item with a `count`, a fluid with an `amount` (in mB), or
/// another type with a `value`. Each may carry NBT.
#[derive(Debug)]
pub struct RawIngredient {
    pub ty: String,
    pub id: Option<String>,
    pub count: Option<u64>,
    pub amount: Option<u64>,
    pub value: Option<String>,
    pub nbt: Option<String>,
}

} // verus!
