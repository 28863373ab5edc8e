//! Trading with NPCs: the checks a purchase or a sale passes, in order, and
//! the goods and gold that change hands. Merchants sell a catalog with
//! unlimited stock and pay out of thin air; residents buy only their
//! wishlist from a finite wallet and sell from their real bag.
use vstd::prelude::*;
use crate::inventory::{
    ItemInstance, find_instance, take_one, take_one_unit, position_of_instance, units_of,
    lemma_take_one_takes_a_unit,
};
use crate::text::str_eq;
use crate::item_defs::{ItemDefs, ids_unique};
use vstd::string::StringExecFns;

verus! {

/// How an NPC trades.
#[derive(Debug, Clone, Copy, PartialEq, Eq, Structural)]
pub enum TraderKind {
    Merchant,
    Resident,
}

/// Why a trade is refused. Some refusals carry no message: the request
/// raced a disconnect and is dropped quietly.
#[derive(Debug, Clone, Copy, PartialEq, Eq, Structural)]
pub enum TradeRefusal {
    NotInCatalog,
    WontPart,
    NoPrice,
    NoWallet,
    NotEnoughGold,
    NoInventory,
    TooHeavy,
    NothingToSell,
    OutOfItem,
    ItemNotFound,
    WillNotBuy,
    NoUse,
    CannotAfford,
    NpcCannotCarry,
}

pub open spec fn refusal_message(r: TradeRefusal) -> Option<Seq<char>> {
    match r {
        TradeRefusal::NotInCatalog => Some("The merchant does not sell that item"@),
        TradeRefusal::WontPart => Some("They won't part with that"@),
        TradeRefusal::NoPrice => Some("That item has no price"@),
        TradeRefusal::NoWallet => None,
        TradeRefusal::NotEnoughGold => Some("Not enough gold"@),
        TradeRefusal::NoInventory => None,
        TradeRefusal::TooHeavy => Some("Too heavy to carry"@),
        TradeRefusal::NothingToSell => Some("They have nothing to sell"@),
        TradeRefusal::OutOfItem => Some("They are out of that item"@),
        TradeRefusal::ItemNotFound => Some("Item not found in bag"@),
        TradeRefusal::WillNotBuy => Some("They will not buy that"@),
        TradeRefusal::NoUse => Some("They have no use for that"@),
        TradeRefusal::CannotAfford => Some("They cannot afford that right now"@),
        TradeRefusal::NpcCannotCarry => Some("They cannot carry any more"@),
    }
}

impl TradeRefusal {
    /// The message the trader's customer is shown, if any.
    pub fn message(&self) -> (r: Option<&'static str>)
        ensures
            match r {
                Some(s) => refusal_message(*self) == Some(s@),
                None => refusal_message(*self) is None,
            },
    {
        match self {
            TradeRefusal::NotInCatalog => Some("The merchant does not sell that item"),
            TradeRefusal::WontPart => Some("They won't part with that"),
            TradeRefusal::NoPrice => Some("That item has no price"),
            TradeRefusal::NoWallet => None,
            TradeRefusal::NotEnoughGold => Some("Not enough gold"),
            TradeRefusal::NoInventory => None,
            TradeRefusal::TooHeavy => Some("Too heavy to carry"),
            TradeRefusal::NothingToSell => Some("They have nothing to sell"),
            TradeRefusal::OutOfItem => Some("They are out of that item"),
            TradeRefusal::ItemNotFound => Some("Item not found in bag"),
            TradeRefusal::WillNotBuy => Some("They will not buy that"),
            TradeRefusal::NoUse => Some("They have no use for that"),
            TradeRefusal::CannotAfford => Some("They cannot afford that right now"),
            TradeRefusal::NpcCannotCarry => Some("They cannot carry any more"),
        }
    }
}

/// The first position at or after `i` of a stack of item `def` (any
/// enchantment).
pub open spec fn find_item_from(bag: Seq<ItemInstance>, def: Seq<char>, i: int) -> Option<int>
    decreases bag.len() - i,
{
    if i < 0 || i >= bag.len() {
        None
    } else if bag[i].item_def_id@ == def {
        Some(i)
    } else {
        find_item_from(bag, def, i + 1)
    }
}

proof fn lemma_find_item_from(bag: Seq<ItemInstance>, def: Seq<char>, i: int)
    ensures
        find_item_from(bag, def, i) matches Some(k) ==> 0 <= k < bag.len() && bag[k].item_def_id@ == def,
    decreases bag.len() - i,
{
    if 0 <= i < bag.len() {
        lemma_find_item_from(bag, def, i + 1);
    }
}

/// Position of the first stack of item `item_def_id` in `bag`, if any.
pub fn position_of_item(bag: &Vec<ItemInstance>, item_def_id: &str) -> (r: Option<usize>)
    ensures
        match r {
            Some(k) => find_item_from(bag@, item_def_id@, 0) == Some(k as int),
            None => find_item_from(bag@, item_def_id@, 0) is None,
        },
{
    let mut i: usize = 0;
    while i < bag.len()
        invariant
            0 <= i <= bag@.len(),
            find_item_from(bag@, item_def_id@, 0) == find_item_from(bag@, item_def_id@, i as int),
        decreases bag@.len() - i,
    {
        if str_eq(bag[i].item_def_id.as_str(), item_def_id) {
            return Some(i);
        }
        i = i + 1;
    }
    None
}

/// The checks of a purchase, in order: the trader offers the item (a
/// merchant's catalog lists it; a resident does not keep wishlist items),
/// it has a price, the buyer has a wallet holding the price and a bag that
/// can carry it, and a resident has a stack of it. On success, the
/// resident's stack to take one unit from.
pub open spec fn spec_plan_buy(
    kind: TraderKind,
    in_catalog: bool,
    on_wishlist: bool,
    priced: bool,
    price: u64,
    buyer_gold: Option<u64>,
    buyer_has_bag: bool,
    buyer_can_carry: bool,
    npc_bag: Option<Seq<ItemInstance>>,
    item: Seq<char>,
) -> Result<Option<int>, TradeRefusal> {
    if kind == TraderKind::Merchant && !in_catalog {
        Err(TradeRefusal::NotInCatalog)
    } else if kind == TraderKind::Resident && on_wishlist {
        Err(TradeRefusal::WontPart)
    } else if !priced {
        Err(TradeRefusal::NoPrice)
    } else if buyer_gold is None {
        Err(TradeRefusal::NoWallet)
    } else if buyer_gold.unwrap() < price {
        Err(TradeRefusal::NotEnoughGold)
    } else if !buyer_has_bag {
        Err(TradeRefusal::NoInventory)
    } else if !buyer_can_carry {
        Err(TradeRefusal::TooHeavy)
    } else if kind == TraderKind::Merchant {
        Ok(None)
    } else {
        match npc_bag {
            None => Err(TradeRefusal::NothingToSell),
            Some(b) => match find_item_from(b, item, 0) {
                None => Err(TradeRefusal::OutOfItem),
                Some(k) => Ok(Some(k)),
            },
        }
    }
}

pub fn plan_buy(
    kind: TraderKind,
    in_catalog: bool,
    on_wishlist: bool,
    priced: bool,
    price: u64,
    buyer_gold: Option<u64>,
    buyer_has_bag: bool,
    buyer_can_carry: bool,
    npc_bag: Option<&Vec<ItemInstance>>,
    item_def_id: &str,
) -> (r: Result<Option<usize>, TradeRefusal>)
    ensures
        spec_plan_buy(
            kind,
            in_catalog,
            on_wishlist,
            priced,
            price,
            buyer_gold,
            buyer_has_bag,
            buyer_can_carry,
            match npc_bag {
                Some(b) => Some(b@),
                None => None,
            },
            item_def_id@,
        ) == match r {
            Ok(Some(k)) => Ok(Some(k as int)),
            Ok(None) => Ok(None),
            Err(e) => Err::<Option<int>, TradeRefusal>(e),
        },
        r matches Ok(Some(k)) ==> npc_bag matches Some(b) && k < b@.len() && b@[k as int].item_def_id@
            == item_def_id@,
        r is Ok ==> buyer_can_carry && buyer_has_bag && priced && (buyer_gold matches Some(g) && g >= price),
        r is Ok ==> (kind == TraderKind::Merchant ==> in_catalog) && (kind == TraderKind::Resident ==> !on_wishlist),
        r matches Ok(stack) ==> (stack is None <==> kind == TraderKind::Merchant),
{
    proof {
        if let Some(b) = npc_bag {
            lemma_find_item_from(b@, item_def_id@, 0);
        }
    }
    if kind == TraderKind::Merchant && !in_catalog {
        return Err(TradeRefusal::NotInCatalog);
    }
    if kind == TraderKind::Resident && on_wishlist {
        return Err(TradeRefusal::WontPart);
    }
    if !priced {
        return Err(TradeRefusal::NoPrice);
    }
    match buyer_gold {
        None => {
            return Err(TradeRefusal::NoWallet);
        },
        Some(g) => {
            if g < price {
                return Err(TradeRefusal::NotEnoughGold);
            }
        },
    }
    if !buyer_has_bag {
        return Err(TradeRefusal::NoInventory);
    }
    if !buyer_can_carry {
        return Err(TradeRefusal::TooHeavy);
    }
    if kind == TraderKind::Merchant {
        return Ok(None);
    }
    match npc_bag {
        None => Err(TradeRefusal::NothingToSell),
        Some(b) => match position_of_item(b, item_def_id) {
            None => Err(TradeRefusal::OutOfItem),
            Some(k) => Ok(Some(k)),
        },
    }
}

/// A purchase goes through only when every check passes, whoever the
/// trader: the buyer can pay, has a bag and can carry the unit, and the
/// item has a price; a merchant lists it, a resident does not keep it for
/// itself. Every refusal names a check that failed. When every check
/// passes, a merchant sells from its unlimited stock and a resident from
/// its first stack of the item, or says it has none.
pub proof fn lemma_purchase_needs_every_check(
    kind: TraderKind,
    in_catalog: bool,
    on_wishlist: bool,
    priced: bool,
    price: u64,
    buyer_gold: Option<u64>,
    buyer_has_bag: bool,
    buyer_can_carry: bool,
    npc_bag: Option<Seq<ItemInstance>>,
    item: Seq<char>,
)
    ensures
        ({
            let r = spec_plan_buy(kind, in_catalog, on_wishlist, priced, price, buyer_gold, buyer_has_bag, buyer_can_carry, npc_bag, item);
            let passes = (kind == TraderKind::Merchant ==> in_catalog) && (kind == TraderKind::Resident ==> !on_wishlist)
                && priced && (buyer_gold matches Some(g) && g >= price) && buyer_has_bag && buyer_can_carry;
            &&& r is Ok ==> passes
            &&& r == Err::<Option<int>, TradeRefusal>(TradeRefusal::TooHeavy) ==> !buyer_can_carry
            &&& r == Err::<Option<int>, TradeRefusal>(TradeRefusal::NoInventory) ==> !buyer_has_bag
            &&& r == Err::<Option<int>, TradeRefusal>(TradeRefusal::NotEnoughGold) ==> (buyer_gold matches Some(g) && g < price)
            &&& r == Err::<Option<int>, TradeRefusal>(TradeRefusal::NoWallet) ==> buyer_gold is None
            &&& r == Err::<Option<int>, TradeRefusal>(TradeRefusal::NoPrice) ==> !priced
            &&& r == Err::<Option<int>, TradeRefusal>(TradeRefusal::NotInCatalog) ==> kind == TraderKind::Merchant && !in_catalog
            &&& r == Err::<Option<int>, TradeRefusal>(TradeRefusal::WontPart) ==> kind == TraderKind::Resident && on_wishlist
            &&& passes && kind == TraderKind::Merchant ==> r == Ok::<Option<int>, TradeRefusal>(None)
            &&& passes && kind == TraderKind::Resident && (npc_bag matches Some(b) && exists|i: int| 0 <= i < b.len() && (#[trigger] b[i]).item_def_id@ == item) ==> (r matches Ok(Some(k)))
            &&& passes && kind == TraderKind::Resident && npc_bag is None ==> r == Err::<Option<int>, TradeRefusal>(TradeRefusal::NothingToSell)
        }),
{
    if let Some(b) = npc_bag {
        lemma_find_item_from(b, item, 0);
        if exists|i: int| 0 <= i < b.len() && (#[trigger] b[i]).item_def_id@ == item {
            let i = choose|i: int| 0 <= i < b.len() && (#[trigger] b[i]).item_def_id@ == item;
            lemma_find_item_found(b, item, 0, i);
        }
    }
}

/// Scanning from `j` finds a stack whenever one lies at or after `j`.
proof fn lemma_find_item_found(bag: Seq<ItemInstance>, def: Seq<char>, j: int, i: int)
    requires
        0 <= j <= i < bag.len(),
        bag[i].item_def_id@ == def,
    ensures
        find_item_from(bag, def, j) is Some,
    decreases i - j,
{
    if bag[j].item_def_id@ != def {
        lemma_find_item_found(bag, def, j + 1, i);
    }
}

/// A sale goes through only when every check passes: the seller holds the
/// stack, the item has a price and the seller a wallet; a resident must
/// also want the item, afford the payout and have a bag that can carry the
/// unit (a merchant pays out of thin air and stores nothing). Every
/// refusal names a check that failed, and when every check passes the sale
/// goes through at the seller's stack.
pub proof fn lemma_sale_needs_every_check(
    kind: TraderKind,
    seller_bag: Seq<ItemInstance>,
    instance_id: u64,
    priced: bool,
    on_wishlist: bool,
    payout: u64,
    seller_has_wallet: bool,
    npc_gold: u64,
    npc_has_bag: bool,
    npc_can_carry: bool,
)
    ensures
        ({
            let r = spec_plan_sell(kind, seller_bag, instance_id, priced, on_wishlist, payout, seller_has_wallet, npc_gold, npc_has_bag, npc_can_carry);
            let resident_ok = on_wishlist && npc_gold >= payout && npc_has_bag && npc_can_carry;
            let passes = find_instance(seller_bag, instance_id) is Some && priced && seller_has_wallet
                && (kind == TraderKind::Resident ==> resident_ok);
            &&& r is Ok <==> passes
            &&& passes ==> r == Ok::<int, TradeRefusal>(find_instance(seller_bag, instance_id)->0)
            &&& r == Err::<int, TradeRefusal>(TradeRefusal::NpcCannotCarry) ==> kind == TraderKind::Resident && !npc_can_carry
            &&& r == Err::<int, TradeRefusal>(TradeRefusal::NoInventory) ==> kind == TraderKind::Resident && !npc_has_bag
            &&& r == Err::<int, TradeRefusal>(TradeRefusal::CannotAfford) ==> kind == TraderKind::Resident && npc_gold < payout
            &&& r == Err::<int, TradeRefusal>(TradeRefusal::NoUse) ==> kind == TraderKind::Resident && !on_wishlist
            &&& r == Err::<int, TradeRefusal>(TradeRefusal::NoWallet) ==> !seller_has_wallet
            &&& r == Err::<int, TradeRefusal>(TradeRefusal::WillNotBuy) ==> !priced
            &&& r == Err::<int, TradeRefusal>(TradeRefusal::ItemNotFound) ==> find_instance(seller_bag, instance_id) is None
        }),
{
}

/// Hand over a bought unit: a resident loses one unit of the planned stack,
/// the buyer gains a fresh unenchanted one-unit stack with id
/// `instance_id`, the buyer pays `price`, and a resident is paid `price`.
pub fn settle_buy(
    buyer_bag: &mut Vec<ItemInstance>,
    buyer_gold: &mut u64,
    npc_bag: &mut Vec<ItemInstance>,
    npc_gold: &mut u64,
    npc_stack: Option<usize>,
    instance_id: u64,
    item_def_id: &str,
    price: u64,
)
    requires
        *old(buyer_gold) >= price,
        npc_stack matches Some(k) ==> k < old(npc_bag)@.len() && *old(npc_gold) + price <= u64::MAX,
    ensures
        final(buyer_bag)@.len() == old(buyer_bag)@.len() + 1,
        final(buyer_bag)@.subrange(0, old(buyer_bag)@.len() as int) == old(buyer_bag)@,
        final(buyer_bag)@.last().instance_id == instance_id,
        final(buyer_bag)@.last().item_def_id@ == item_def_id@,
        final(buyer_bag)@.last().quantity == 1,
        final(buyer_bag)@.last().enchant == 0,
        *final(buyer_gold) == *old(buyer_gold) - price,
        match npc_stack {
            Some(k) => final(npc_bag)@ == take_one(old(npc_bag)@, k as int) && *final(npc_gold) == *old(
                npc_gold,
            ) + price,
            None => final(npc_bag)@ == old(npc_bag)@ && *final(npc_gold) == *old(npc_gold),
        },
        units_of(final(buyer_bag)@, item_def_id@) == units_of(old(buyer_bag)@, item_def_id@) + 1,
        npc_stack matches Some(k) && old(npc_bag)@[k as int].quantity >= 1
            && old(npc_bag)@[k as int].item_def_id@ == item_def_id@ ==> units_of(final(npc_bag)@, item_def_id@)
            == units_of(old(npc_bag)@, item_def_id@) - 1,
        npc_stack is Some ==> *final(buyer_gold) + *final(npc_gold) == *old(buyer_gold) + *old(npc_gold),
{
    if let Some(k) = npc_stack {
        proof {
            if npc_bag@[k as int].quantity >= 1 {
                lemma_take_one_takes_a_unit(npc_bag@, k as int, item_def_id@);
            }
        }
        take_one_unit(npc_bag, k);
        *npc_gold = *npc_gold + price;
    }
    buyer_bag.push(
        ItemInstance {
            instance_id,
            item_def_id: String::from_str(item_def_id),
            quantity: 1,
            enchant: 0,
        },
    );
    proof {
        assert(buyer_bag@.subrange(0, old(buyer_bag)@.len() as int) =~= old(buyer_bag)@);
        assert(buyer_bag@.drop_last() =~= old(buyer_bag)@);
    }
    *buyer_gold = *buyer_gold - price;
}

/// The checks of a sale, in order: the seller holds the stack, it has a
/// price, a resident wants it, the seller has a wallet, a resident can pay
/// the payout and has a bag that can carry the unit. On success, the
/// position of the sold stack in the seller's bag.
pub open spec fn spec_plan_sell(
    kind: TraderKind,
    seller_bag: Seq<ItemInstance>,
    instance_id: u64,
    priced: bool,
    on_wishlist: bool,
    payout: u64,
    seller_has_wallet: bool,
    npc_gold: u64,
    npc_has_bag: bool,
    npc_can_carry: bool,
) -> Result<int, TradeRefusal> {
    match find_instance(seller_bag, instance_id) {
        None => Err(TradeRefusal::ItemNotFound),
        Some(k) => if !priced {
            Err(TradeRefusal::WillNotBuy)
        } else if kind == TraderKind::Resident && !on_wishlist {
            Err(TradeRefusal::NoUse)
        } else if !seller_has_wallet {
            Err(TradeRefusal::NoWallet)
        } else if kind == TraderKind::Resident && npc_gold < payout {
            Err(TradeRefusal::CannotAfford)
        } else if kind == TraderKind::Resident && !npc_has_bag {
            Err(TradeRefusal::NoInventory)
        } else if kind == TraderKind::Resident && !npc_can_carry {
            Err(TradeRefusal::NpcCannotCarry)
        } else {
            Ok(k)
        },
    }
}

pub fn plan_sell(
    kind: TraderKind,
    seller_bag: &Vec<ItemInstance>,
    instance_id: u64,
    priced: bool,
    on_wishlist: bool,
    payout: u64,
    seller_has_wallet: bool,
    npc_gold: u64,
    npc_has_bag: bool,
    npc_can_carry: bool,
) -> (r: Result<usize, TradeRefusal>)
    ensures
        spec_plan_sell(
            kind,
            seller_bag@,
            instance_id,
            priced,
            on_wishlist,
            payout,
            seller_has_wallet,
            npc_gold,
            npc_has_bag,
            npc_can_carry,
        ) == match r {
            Ok(k) => Ok(k as int),
            Err(e) => Err::<int, TradeRefusal>(e),
        },
        r matches Ok(k) ==> k < seller_bag@.len(),
        r matches Ok(k) ==> seller_bag@[k as int].instance_id == instance_id && priced && seller_has_wallet,
        r is Ok && kind == TraderKind::Resident ==> on_wishlist && npc_gold >= payout && npc_has_bag && npc_can_carry,
{
    let k = match position_of_instance(seller_bag, instance_id) {
        None => {
            return Err(TradeRefusal::ItemNotFound);
        },
        Some(k) => k,
    };
    proof {
        crate::inventory::lemma_find_instance_bounds(seller_bag@, instance_id);
    }
    if !priced {
        return Err(TradeRefusal::WillNotBuy);
    }
    if kind == TraderKind::Resident && !on_wishlist {
        return Err(TradeRefusal::NoUse);
    }
    if !seller_has_wallet {
        return Err(TradeRefusal::NoWallet);
    }
    if kind == TraderKind::Resident && npc_gold < payout {
        return Err(TradeRefusal::CannotAfford);
    }
    if kind == TraderKind::Resident && !npc_has_bag {
        return Err(TradeRefusal::NoInventory);
    }
    if kind == TraderKind::Resident && !npc_can_carry {
        return Err(TradeRefusal::NpcCannotCarry);
    }
    Ok(k)
}

/// Hand over a sold unit: the seller loses one unit of the stack at `k`
/// and is paid `payout`; a resident gains a one-unit stack of the item
/// (keeping its enchantment) with id `npc_instance_id` and pays `payout`;
/// a merchant's goods vanish.
pub fn settle_sell(
    kind: TraderKind,
    seller_bag: &mut Vec<ItemInstance>,
    seller_gold: &mut u64,
    npc_bag: &mut Vec<ItemInstance>,
    npc_gold: &mut u64,
    k: usize,
    npc_instance_id: u64,
    payout: u64,
)
    requires
        k < old(seller_bag)@.len(),
        *old(seller_gold) + payout <= u64::MAX,
        kind == TraderKind::Resident ==> *old(npc_gold) >= payout,
    ensures
        final(seller_bag)@ == take_one(old(seller_bag)@, k as int),
        *final(seller_gold) == *old(seller_gold) + payout,
        kind == TraderKind::Resident ==> {
            &&& *final(npc_gold) == *old(npc_gold) - payout
            &&& final(npc_bag)@.len() == old(npc_bag)@.len() + 1
            &&& final(npc_bag)@.subrange(0, old(npc_bag)@.len() as int) == old(npc_bag)@
            &&& final(npc_bag)@.last().instance_id == npc_instance_id
            &&& final(npc_bag)@.last().item_def_id == old(seller_bag)@[k as int].item_def_id
            &&& final(npc_bag)@.last().quantity == 1
            &&& final(npc_bag)@.last().enchant == old(seller_bag)@[k as int].enchant
        },
        kind == TraderKind::Merchant ==> final(npc_bag)@ == old(npc_bag)@ && *final(npc_gold) == *old(
            npc_gold,
        ),
        old(seller_bag)@[k as int].quantity >= 1 ==> units_of(
            final(seller_bag)@,
            old(seller_bag)@[k as int].item_def_id@,
        ) == units_of(old(seller_bag)@, old(seller_bag)@[k as int].item_def_id@) - 1,
        kind == TraderKind::Resident ==> units_of(final(npc_bag)@, old(seller_bag)@[k as int].item_def_id@)
            == units_of(old(npc_bag)@, old(seller_bag)@[k as int].item_def_id@) + 1,
        kind == TraderKind::Resident ==> *final(seller_gold) + *final(npc_gold) == *old(seller_gold)
            + *old(npc_gold),
{
    proof {
        if seller_bag@[k as int].quantity >= 1 {
            lemma_take_one_takes_a_unit(seller_bag@, k as int, seller_bag@[k as int].item_def_id@);
        }
    }
    if kind == TraderKind::Resident {
        let sold = ItemInstance {
            instance_id: npc_instance_id,
            item_def_id: seller_bag[k].item_def_id.clone(),
            quantity: 1,
            enchant: seller_bag[k].enchant,
        };
        npc_bag.push(sold);
        proof {
            assert(npc_bag@.subrange(0, old(npc_bag)@.len() as int) =~= old(npc_bag)@);
            assert(npc_bag@.drop_last() =~= old(npc_bag)@);
        }
        *npc_gold = *npc_gold - payout;
    }
    take_one_unit(seller_bag, k);
    *seller_gold = *seller_gold + payout;
}

/// One line of a trader's purchasable stock.
#[derive(Debug, Clone)]
pub struct StockEntry {
    pub item_def_id: String,
    pub quantity: u32,
}

/// `id` is on the wishlist.
pub open spec fn wished(wishlist: Seq<String>, id: Seq<char>) -> bool {
    exists|i: int| 0 <= i < wishlist.len() && #[trigger] wishlist[i]@ == id
}

/// Some definition of the catalog prices item `id`.
pub open spec fn priced_in(defs: Seq<crate::item_defs::ItemDefinition>, id: Seq<char>) -> bool {
    exists|i: int| 0 <= i < defs.len() && #[trigger] defs[i].id@ == id && defs[i].base_price is Some
}

/// First position of item `id` among stock lines.
pub open spec fn line_pos(s: Seq<(Seq<char>, int)>, id: Seq<char>) -> Option<int>
    decreases s.len(),
{
    if s.len() == 0 {
        None
    } else {
        match line_pos(s.drop_last(), id) {
            Some(k) => Some(k),
            None => if s.last().0 == id {
                Some(s.len() - 1)
            } else {
                None
            },
        }
    }
}

/// A resident's purchasable stock from its bag: priced items that are not
/// on its wishlist (wishlist purchases are never resold), one line per
/// item, quantities summed, lines in order of first appearance.
pub open spec fn stock_lines(
    bag: Seq<ItemInstance>,
    wishlist: Seq<String>,
    defs: Seq<crate::item_defs::ItemDefinition>,
) -> Seq<(Seq<char>, int)>
    decreases bag.len(),
{
    if bag.len() == 0 {
        Seq::empty()
    } else {
        let rest = stock_lines(bag.drop_last(), wishlist, defs);
        let it = bag.last();
        if wished(wishlist, it.item_def_id@) || !priced_in(defs, it.item_def_id@) {
            rest
        } else {
            match line_pos(rest, it.item_def_id@) {
                Some(k) => rest.update(k, (rest[k].0, rest[k].1 + it.quantity)),
                None => rest.push((it.item_def_id@, it.quantity as int)),
            }
        }
    }
}

pub open spec fn stock_view(s: Seq<StockEntry>) -> Seq<(Seq<char>, int)> {
    s.map_values(|e: StockEntry| (e.item_def_id@, e.quantity as int))
}

/// Every line of the stock fits a `u32` quantity.
pub open spec fn stock_fits(s: Seq<(Seq<char>, int)>) -> bool {
    forall|k: int| 0 <= k < s.len() ==> #[trigger] s[k].1 <= u32::MAX
}

proof fn lemma_line_pos(s: Seq<(Seq<char>, int)>, id: Seq<char>)
    ensures
        line_pos(s, id) matches Some(k) ==> 0 <= k < s.len() && s[k].0 == id && forall|j: int|
            0 <= j < k ==> #[trigger] s[j].0 != id,
        line_pos(s, id) is None ==> forall|k: int| 0 <= k < s.len() ==> #[trigger] s[k].0 != id,
    decreases s.len(),
{
    if s.len() > 0 {
        lemma_line_pos(s.drop_last(), id);
        if let Some(k) = line_pos(s, id) {
            assert forall|j: int| 0 <= j < k implies #[trigger] s[j].0 != id by {
                assert(s[j] == s.drop_last()[j]);
            }
        }
        if line_pos(s, id) is None {
            assert forall|k: int| 0 <= k < s.len() implies #[trigger] s[k].0 != id by {
                if k < s.len() - 1 {
                    assert(s[k] == s.drop_last()[k]);
                }
            }
        }
    }
}

/// Lines only grow along the bag: every line of a prefix's stock is a line
/// of the whole stock with at least its quantity, so the whole stock
/// fitting `u32` bounds every partial sum.
proof fn lemma_stock_grows(
    bag: Seq<ItemInstance>,
    wishlist: Seq<String>,
    defs: Seq<crate::item_defs::ItemDefinition>,
    n: int,
)
    requires
        0 <= n <= bag.len(),
    ensures
        stock_lines(bag.subrange(0, n), wishlist, defs).len() <= stock_lines(bag, wishlist, defs).len(),
        forall|k: int|
            0 <= k < stock_lines(bag.subrange(0, n), wishlist, defs).len() ==> #[trigger] stock_lines(
                bag.subrange(0, n),
                wishlist,
                defs,
            )[k].0 == stock_lines(bag, wishlist, defs)[k].0 && 0 <= stock_lines(bag.subrange(0, n), wishlist, defs)[k].1
                <= stock_lines(bag, wishlist, defs)[k].1,
    decreases bag.len() - n,
{
    if n < bag.len() {
        lemma_stock_grows(bag, wishlist, defs, n + 1);
        let p = bag.subrange(0, n + 1);
        assert(p.drop_last() =~= bag.subrange(0, n));
        let a = stock_lines(bag.subrange(0, n), wishlist, defs);
        let b = stock_lines(p, wishlist, defs);
        lemma_line_pos(a, p.last().item_def_id@);
        assert forall|k: int| 0 <= k < a.len() implies b[k].0 == a[k].0 && a[k].1 <= b[k].1 by {}
    } else {
        assert(bag.subrange(0, n) =~= bag);
    }
    lemma_stock_nonneg(bag.subrange(0, n), wishlist, defs);
}

proof fn lemma_stock_nonneg(bag: Seq<ItemInstance>, wishlist: Seq<String>, defs: Seq<crate::item_defs::ItemDefinition>)
    ensures
        forall|k: int| 0 <= k < stock_lines(bag, wishlist, defs).len() ==> 0 <= #[trigger] stock_lines(bag, wishlist, defs)[k].1,
    decreases bag.len(),
{
    if bag.len() > 0 {
        lemma_stock_nonneg(bag.drop_last(), wishlist, defs);
        lemma_line_pos(stock_lines(bag.drop_last(), wishlist, defs), bag.last().item_def_id@);
    }
}

/// Whether `id` is on the wishlist.
pub fn on_wishlist(wishlist: &Vec<String>, id: &str) -> (r: bool)
    ensures
        r == wished(wishlist@, id@),
{
    let mut i: usize = 0;
    while i < wishlist.len()
        invariant
            0 <= i <= wishlist@.len(),
            forall|k: int| 0 <= k < i ==> #[trigger] wishlist@[k]@ != id@,
        decreases wishlist@.len() - i,
    {
        if str_eq(wishlist[i].as_str(), id) {
            return true;
        }
        i = i + 1;
    }
    false
}

/// A resident's purchasable stock: the priced bag items that are not on
/// its wishlist, one line per item with the quantities summed. Wishlist
/// purchases are kept, never resold, so what it buys and what it sells
/// stay disjoint.
pub fn resident_stock(bag: &Vec<ItemInstance>, wishlist: &Vec<String>, defs: &ItemDefs) -> (r: Vec<StockEntry>)
    requires
        ids_unique(defs.defs@),
        stock_fits(stock_lines(bag@, wishlist@, defs.defs@)),
    ensures
        stock_view(r@) == stock_lines(bag@, wishlist@, defs.defs@),
{
    let mut stock: Vec<StockEntry> = Vec::new();
    let mut i: usize = 0;
    while i < bag.len()
        invariant
            0 <= i <= bag@.len(),
            ids_unique(defs.defs@),
            stock_fits(stock_lines(bag@, wishlist@, defs.defs@)),
            stock_view(stock@) == stock_lines(bag@.subrange(0, i as int), wishlist@, defs.defs@),
        decreases bag@.len() - i,
    {
        let item = &bag[i];
        let ghost prefix = bag@.subrange(0, i + 1);
        let ghost rest = stock_lines(bag@.subrange(0, i as int), wishlist@, defs.defs@);
        proof {
            assert(prefix.drop_last() =~= bag@.subrange(0, i as int));
            assert(prefix.last() == *item);
        }
        let wanted = on_wishlist(wishlist, item.item_def_id.as_str());
        let priced = match defs.get(item.item_def_id.as_str()) {
            Some(d) => {
                proof {
                    let j = choose|j: int|
                        0 <= j < defs.defs@.len() && defs.defs@[j] == *d && d.id@ == item.item_def_id@;
                    assert(defs.defs@[j].id@ == item.item_def_id@);
                }
                d.base_price.is_some()
            },
            None => false,
        };
        proof {
            if priced_in(defs.defs@, item.item_def_id@) {
                let j = choose|j: int| 0 <= j < defs.defs@.len() && #[trigger] defs.defs@[j].id@ == item.item_def_id@ && defs.defs@[j].base_price is Some;
                assert(defs.defs@[j].id@ == item.item_def_id@);
            }
        }
        if !wanted && priced {
            proof {
                lemma_line_pos(rest, item.item_def_id@);
                lemma_stock_grows(bag@, wishlist@, defs.defs@, i + 1);
            }
            let mut k: usize = 0;
            while k < stock.len() && !str_eq(stock[k].item_def_id.as_str(), item.item_def_id.as_str())
                invariant
                    0 <= k <= stock@.len(),
                    stock_view(stock@) == rest,
                    forall|j: int| 0 <= j < k ==> #[trigger] stock@[j].item_def_id@ != item.item_def_id@,
                decreases stock@.len() - k,
            {
                k = k + 1;
            }
            if k < stock.len() {
                proof {
                    assert(line_pos(rest, item.item_def_id@) == Some(k as int)) by {
                        assert(rest[k as int] == stock_view(stock@)[k as int]);
                        assert(rest[k as int].0 == item.item_def_id@);
                        if let Some(q) = line_pos(rest, item.item_def_id@) {
                            if q < k {
                                assert(rest[q] == stock_view(stock@)[q]);
                                assert(stock@[q].item_def_id@ != item.item_def_id@);
                            }
                        }
                    }
                    let whole = stock_lines(bag@, wishlist@, defs.defs@);
                    let grown = stock_lines(prefix, wishlist@, defs.defs@);
                    assert(!wished(wishlist@, prefix.last().item_def_id@));
                    assert(priced_in(defs.defs@, prefix.last().item_def_id@));
                    assert(grown == rest.update(k as int, (rest[k as int].0, rest[k as int].1 + item.quantity)));
                    assert(k < grown.len());
                    lemma_stock_grows(bag@, wishlist@, defs.defs@, i + 1);
                    assert(grown[k as int].0 == whole[k as int].0);
                    assert(grown[k as int].1 <= whole[k as int].1);
                }
                let q = stock[k].quantity + item.quantity;
                let entry = StockEntry { item_def_id: item.item_def_id.clone(), quantity: q };
                let ghost before = stock@;
                stock.set(k, entry);
                proof {
                    assert(stock_view(stock@) =~= stock_view(before).update(k as int, (rest[k as int].0, rest[k as int].1 + item.quantity)));
                }
            } else {
                proof {
                    assert(line_pos(rest, item.item_def_id@) is None) by {
                        if let Some(q) = line_pos(rest, item.item_def_id@) {
                            assert(rest[q] == stock_view(stock@)[q]);
                            assert(stock@[q].item_def_id@ != item.item_def_id@);
                        }
                    }
                }
                let ghost before = stock@;
                stock.push(StockEntry { item_def_id: item.item_def_id.clone(), quantity: item.quantity });
                proof {
                    assert(stock_view(stock@) =~= stock_view(before).push((item.item_def_id@, item.quantity as int)));
                }
            }
        }
        i = i + 1;
    }
    proof {
        assert(bag@.subrange(0, bag@.len() as int) =~= bag@);
    }
    stock
}

proof fn lemma_stock_unwished(
    bag: Seq<ItemInstance>,
    wishlist: Seq<String>,
    defs: Seq<crate::item_defs::ItemDefinition>,
)
    ensures
        forall|k: int|
            0 <= k < stock_lines(bag, wishlist, defs).len() ==> !wished(
                wishlist,
                #[trigger] stock_lines(bag, wishlist, defs)[k].0,
            ),
    decreases bag.len(),
{
    if bag.len() > 0 {
        lemma_stock_unwished(bag.drop_last(), wishlist, defs);
        lemma_line_pos(stock_lines(bag.drop_last(), wishlist, defs), bag.last().item_def_id@);
    }
}

/// A resident never both buys and sells an item: every line of its stock
/// is off its wishlist, a purchase of a wishlist item is refused, and a
/// sale of an item off the wishlist is refused, so no item can be bought
/// from it and sold back to it at its premium rate.
pub proof fn lemma_resident_trades_disjoint(
    bag: Seq<ItemInstance>,
    wishlist: Seq<String>,
    defs: Seq<crate::item_defs::ItemDefinition>,
    item: Seq<char>,
    in_catalog: bool,
    priced: bool,
    price: u64,
    buyer_gold: Option<u64>,
    buyer_has_bag: bool,
    buyer_can_carry: bool,
    npc_bag: Option<Seq<ItemInstance>>,
    seller_bag: Seq<ItemInstance>,
    instance_id: u64,
    payout: u64,
    seller_has_wallet: bool,
    npc_gold: u64,
    npc_has_bag: bool,
    npc_can_carry: bool,
)
    requires
        find_instance(seller_bag, instance_id) matches Some(k) ==> seller_bag[k].item_def_id@ == item,
    ensures
        forall|k: int|
            0 <= k < stock_lines(bag, wishlist, defs).len() ==> !wished(
                wishlist,
                #[trigger] stock_lines(bag, wishlist, defs)[k].0,
            ),
        !(spec_plan_buy(
            TraderKind::Resident,
            in_catalog,
            wished(wishlist, item),
            priced,
            price,
            buyer_gold,
            buyer_has_bag,
            buyer_can_carry,
            npc_bag,
            item,
        ) is Ok && spec_plan_sell(
            TraderKind::Resident,
            seller_bag,
            instance_id,
            priced,
            wished(wishlist, item),
            payout,
            seller_has_wallet,
            npc_gold,
            npc_has_bag,
            npc_can_carry,
        ) is Ok),
{
    lemma_stock_unwished(bag, wishlist, defs);
}

} // verus!
