//! Merchant definitions: which NPC trades what, and at which rate.
use vstd::prelude::*;
use crate::text::str_eq;

verus! {

/// One merchant: its NPC's character name, the rate it pays when a player
/// sells, and the catalog it sells from (unlimited stock).
#[derive(Debug, Clone)]
pub struct MerchantDefinition {
    pub id: String,
    pub npc_name: String,
    /// Percentage of base price the merchant pays when a player sells.
    pub sell_rate_percent: u32,
    /// Item def ids the merchant sells.
    pub catalog: Vec<String>,
}

/// Whether `item` is among the ids of `catalog`.
pub open spec fn in_catalog(catalog: Seq<String>, item: Seq<char>) -> bool {
    exists|i: int| 0 <= i < catalog.len() && #[trigger] catalog[i]@ == item
}

impl MerchantDefinition {
    /// Whether the merchant sells `item_def_id`.
    pub fn sells(&self, item_def_id: &str) -> (r: bool)
        ensures
            r == in_catalog(self.catalog@, item_def_id@),
    {
        let mut i: usize = 0;
        while i < self.catalog.len()
            invariant
                0 <= i <= self.catalog@.len(),
                forall|j: int| 0 <= j < i ==> self.catalog@[j]@ != item_def_id@,
            decreases self.catalog@.len() - i,
        {
            if str_eq(self.catalog[i].as_str(), item_def_id) {
                return true;
            }
            i = i + 1;
        }
        false
    }
}

/// The merchant definitions, looked up by NPC name.
#[derive(Debug, Clone)]
pub struct MerchantDefs {
    pub defs: Vec<MerchantDefinition>,
}

impl MerchantDefs {
    pub fn from_definitions(defs: Vec<MerchantDefinition>) -> (r: MerchantDefs)
        ensures
            r.defs@ == defs@,
    {
        MerchantDefs { defs }
    }

    /// The merchant run by the NPC named `npc_name`: the first definition
    /// with that name, or `None` when no merchant has it.
    pub fn get_by_npc_name(&self, npc_name: &str) -> (r: Option<&MerchantDefinition>)
        ensures
            match r {
                Some(d) => exists|i: int|
                    0 <= i < self.defs@.len() && self.defs@[i] == *d && d.npc_name@ == npc_name@
                        && forall|j: int| 0 <= j < i ==> #[trigger] self.defs@[j].npc_name@ != npc_name@,
                None => forall|i: int| 0 <= i < self.defs@.len() ==> #[trigger] self.defs@[i].npc_name@ != npc_name@,
            },
    {
        let mut i: usize = 0;
        while i < self.defs.len()
            invariant
                0 <= i <= self.defs@.len(),
                forall|j: int| 0 <= j < i ==> #[trigger] self.defs@[j].npc_name@ != npc_name@,
            decreases self.defs@.len() - i,
        {
            if str_eq(self.defs[i].npc_name.as_str(), npc_name) {
                return Some(&self.defs[i]);
            }
            i = i + 1;
        }
        None
    }
}

} // verus!
