//! Materials, recipes and categories: the facts of the production graph.
use vstd::prelude::*;

use crate::scalar::Scalar;

verus! {

/// Dense numbers of materials, recipes and categories.
pub type MaterialId = u32;

pub type RecipeId = u32;

pub type CategoryId = u32;

/// The kind of an ingredient. `Other` carries the interned name of its type.
#[derive(Clone, Copy, Debug, PartialEq, Eq, Hash, Structural)]
pub enum MaterialKind {
    Item,
    Fluid,
    Other(u32),
}

impl MaterialKind {
    pub fn is_item(self) -> (r: bool)
        ensures
            r == (self is Item),
    {
        matches!(self, MaterialKind::Item)
    }

    pub fn is_fluid(self) -> (r: bool)
        ensures
            r == (self is Fluid),
    {
        matches!(self, MaterialKind::Fluid)
    }
}

/// What identifies a material: its kind, its interned id and its interned NBT.
///
/// Two materials with one id and different NBT are different materials.
#[derive(Clone, Copy, Debug, PartialEq, Eq, Hash)]
pub struct MaterialKey {
    pub kind: MaterialKind,
    pub id: u32,
    pub nbt: Option<u32>,
}

/// A material as a number that no other material key has.
pub open spec fn key_code(k: MaterialKey) -> int {
    let kind = match k.kind {
        MaterialKind::Item => 0int,
        MaterialKind::Fluid => 1int,
        MaterialKind::Other(s) => 2 + s,
    };
    let nbt = match k.nbt {
        None => 0int,
        Some(n) => 1 + n,
    };
    (kind * 0x2_0000_0000 + nbt) * 0x1_0000_0000 + k.id
}

/// Two keys with one code are one key.
pub proof fn key_code_injective(a: MaterialKey, b: MaterialKey)
    ensures
        key_code(a) == key_code(b) <==> a == b,
        0 <= key_code(a) < u128::MAX,
{
}

impl MaterialKey {
    /// The number that stands for the key in an index.
    pub fn code(&self) -> (r: u128)
        ensures
            r == key_code(*self),
    {
        let kind: u128 = match self.kind {
            MaterialKind::Item => 0,
            MaterialKind::Fluid => 1,
            MaterialKind::Other(s) => 2 + s as u128,
        };
        let nbt: u128 = match self.nbt {
            None => 0,
            Some(n) => 1 + n as u128,
        };
        (kind * 0x2_0000_0000 + nbt) * 0x1_0000_0000 + self.id as u128
    }
}

/// What is known of a material.
#[derive(Clone, Debug)]
pub struct MaterialInfo {
    pub key: MaterialKey,
    /// Readable name: the short id with blanks, marked when there is NBT.
    pub display: String,
}

/// A slot of a recipe: any one of `alts` fills it. A quantity counts pieces of
/// an item or mB of a fluid.
#[derive(Clone, Debug)]
pub struct Slot {
    pub name: String,
    pub alts: Vec<(MaterialId, u64)>,
}

impl Slot {
    /// The first candidate of the slot.
    pub open spec fn primary_spec(self) -> Option<(MaterialId, u64)> {
        if self.alts@.len() > 0 {
            Some(self.alts@[0])
        } else {
            None
        }
    }

    /// The candidate that is taken for quick estimates: the first one.
    pub fn primary(&self) -> (r: Option<(MaterialId, u64)>)
        ensures
            r == self.primary_spec(),
    {
        if self.alts.len() > 0 {
            Some(self.alts[0])
        } else {
            None
        }
    }
}

/// Direction of the energy of a recipe.
#[derive(Clone, Copy, Debug, PartialEq, Eq, Structural)]
pub enum EnergyIo {
    /// Consumes power.
    In,
    /// Generates power.
    Out,
}

/// What a GregTech machine needs to run a recipe.
#[derive(Clone, Debug)]
pub struct GtRecipeInfo {
    pub recipe_type: Option<String>,
    /// Length of one operation in ticks (20 ticks are a second).
    pub duration_ticks: u32,
    pub parallels: u32,
    /// Energy per tick.
    pub eut: Scalar,
    pub amperage: Scalar,
    pub energy_io: Option<EnergyIo>,
    /// Name of the tier (LV, MV, ...).
    pub tier: Option<String>,
    /// Number of the tier.
    pub tier_index: Option<u8>,
    /// Lowest voltage.
    pub voltage: Scalar,
    /// `eut` times amperage.
    pub total_eu_t: Scalar,
    /// `total_eu_t` times the duration.
    pub total_eu: Scalar,
}

impl GtRecipeInfo {
    pub open spec fn consumes_spec(self) -> bool {
        self.energy_io matches Some(io) && io is In
    }

    pub open spec fn generates_spec(self) -> bool {
        self.energy_io matches Some(io) && io is Out
    }

    /// Whether the recipe consumes energy. Fuels carry no energy data.
    pub fn consumes_energy(&self) -> (r: bool)
        ensures
            r == self.consumes_spec(),
    {
        matches!(self.energy_io, Some(EnergyIo::In))
    }

    pub fn generates_energy(&self) -> (r: bool)
        ensures
            r == self.generates_spec(),
    {
        matches!(self.energy_io, Some(EnergyIo::Out))
    }
}

/// A recipe: all input slots are consumed, all output slots are produced.
#[derive(Clone, Debug)]
pub struct RecipeNode {
    pub category: CategoryId,
    /// Id of the recipe, unique in its category.
    pub id: String,
    pub inputs: Vec<Slot>,
    pub outputs: Vec<Slot>,
    /// Machine data; vanilla recipes have none.
    pub gt: Option<GtRecipeInfo>,
}

impl RecipeNode {
    /// The first candidate of the first output slot.
    pub fn primary_output(&self) -> (r: Option<(MaterialId, u64)>)
        ensures
            self.outputs@.len() == 0 ==> r is None,
            self.outputs@.len() > 0 ==> r == self.outputs@[0].primary_spec(),
    {
        if self.outputs.len() > 0 {
            self.outputs[0].primary()
        } else {
            None
        }
    }

    pub open spec fn empty_spec(self) -> bool {
        self.inputs@.len() == 0 && self.outputs@.len() == 0
    }

    pub fn is_empty(&self) -> (r: bool)
        ensures
            r == self.empty_spec(),
    {
        self.inputs.len() == 0 && self.outputs.len() == 0
    }
}

/// A machine that can run the recipes of a category.
#[derive(Clone, Debug)]
pub struct Catalyst {
    pub material: MaterialId,
    pub count: u64,
}

/// A category of recipes.
#[derive(Clone, Debug)]
pub struct CategoryInfo {
    pub ty: String,
    pub title: String,
    pub recipe_class: Option<String>,
    pub catalysts: Vec<Catalyst>,
    pub recipe_count: usize,
}

/// A material as it is shown to a client.
#[derive(Debug)]
pub struct MaterialDto {
    pub kind: String,
    pub id: String,
    pub nbt: Option<String>,
    /// Name derived from the id.
    pub display: String,
    /// Chinese name; `display` where none is known.
    pub display_zh: String,
    /// English name; `display` where none is known.
    pub display_en: String,
}

/// An optional string, copied.
pub fn copy_option(s: &Option<String>) -> (r: Option<String>)
    ensures
        r == *s,
{
    match s {
        Some(t) => Some(t.clone()),
        None => None,
    }
}

impl Clone for MaterialDto {
    fn clone(&self) -> (r: Self)
        ensures
            r == *self,
    {
        MaterialDto {
            kind: self.kind.clone(),
            id: self.id.clone(),
            nbt: copy_option(&self.nbt),
            display: self.display.clone(),
            display_zh: self.display_zh.clone(),
            display_en: self.display_en.clone(),
        }
    }
}

/// An ingredient as it is shown to a client.
#[derive(Clone, Debug)]
pub struct IngredientDto {
    pub kind: String,
    pub id: String,
    pub nbt: Option<String>,
    pub count: Option<u64>,
    pub amount: Option<u64>,
    pub value: Option<String>,
    pub display: String,
}

/// A slot as it is shown to a client.
#[derive(Clone, Debug)]
pub struct SlotDto {
    pub name: String,
    pub ingredients: Vec<IngredientDto>,
}

} // verus!
