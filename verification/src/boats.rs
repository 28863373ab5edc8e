//! Boat decisions: who may launch, pack up or steer a boat, the seats its
//! riders hold, and how much of a sailing leg is deep enough to follow.
//! Water depths and positions are sampled by the caller; these functions
//! take what the samples decided.
use vstd::prelude::*;
use crate::entity::{BoatPassenger, PlayerId};

verus! {

/// Boats are an outdoors thing: the overworld floor.
pub const OVERWORLD_FLOOR: i8 = 0;

/// Seats aboard one boat; the owner holds seat 0.
pub const BOAT_SEATS: usize = 4;

/// Why a boat request is refused.
#[derive(Debug, Clone, Copy, PartialEq, Eq, Structural)]
pub enum BoatRefusal {
    Defeated,
    NotOutdoors,
    AlreadyAfloat,
    NoLaunchWater,
    NotOwnerStow,
    StillSailing,
    OthersAboard,
    OpenWater,
    NotAboard,
    NotPilot,
    BlockedByLand,
}

pub open spec fn boat_refusal_text(r: BoatRefusal) -> Seq<char> {
    match r {
        BoatRefusal::Defeated => "You cannot launch a boat while defeated."@,
        BoatRefusal::NotOutdoors => "You can only launch a boat outdoors."@,
        BoatRefusal::AlreadyAfloat => "Your boat is already in the water."@,
        BoatRefusal::NoLaunchWater => "You need to stand at the water's edge to launch your boat."@,
        BoatRefusal::NotOwnerStow => "Only the owner can pack the boat up."@,
        BoatRefusal::StillSailing => "Drop anchor before packing up."@,
        BoatRefusal::OthersAboard => "You cannot pack up the boat while others are aboard."@,
        BoatRefusal::OpenWater => "Open water — sail closer to shore to pack up."@,
        BoatRefusal::NotAboard => "You are not aboard a boat."@,
        BoatRefusal::NotPilot => "Only the owner holds the tiller."@,
        BoatRefusal::BlockedByLand => "The way is blocked by land."@,
    }
}

impl BoatRefusal {
    /// The error text the player is sent.
    pub fn message(&self) -> (r: &'static str)
        ensures
            r@ == boat_refusal_text(*self),
    {
        match self {
            BoatRefusal::Defeated => "You cannot launch a boat while defeated.",
            BoatRefusal::NotOutdoors => "You can only launch a boat outdoors.",
            BoatRefusal::AlreadyAfloat => "Your boat is already in the water.",
            BoatRefusal::NoLaunchWater => "You need to stand at the water's edge to launch your boat.",
            BoatRefusal::NotOwnerStow => "Only the owner can pack the boat up.",
            BoatRefusal::StillSailing => "Drop anchor before packing up.",
            BoatRefusal::OthersAboard => "You cannot pack up the boat while others are aboard.",
            BoatRefusal::OpenWater => "Open water — sail closer to shore to pack up.",
            BoatRefusal::NotAboard => "You are not aboard a boat.",
            BoatRefusal::NotPilot => "Only the owner holds the tiller.",
            BoatRefusal::BlockedByLand => "The way is blocked by land.",
        }
    }
}

/// The launch checks, in order: the player is alive, outdoors, and has no
/// boat afloat already. (Whether there is water to launch onto is sampled
/// afterwards.)
pub open spec fn spec_launch_refusal(alive: bool, floor_level: i8, owns_afloat: bool) -> Option<BoatRefusal> {
    if !alive {
        Some(BoatRefusal::Defeated)
    } else if floor_level != OVERWORLD_FLOOR {
        Some(BoatRefusal::NotOutdoors)
    } else if owns_afloat {
        Some(BoatRefusal::AlreadyAfloat)
    } else {
        None
    }
}

pub fn launch_refusal(alive: bool, floor_level: i8, owns_afloat: bool) -> (r: Option<BoatRefusal>)
    ensures
        r is None ==> alive && floor_level == OVERWORLD_FLOOR && !owns_afloat,
        alive && floor_level != OVERWORLD_FLOOR ==> r == Some(BoatRefusal::NotOutdoors),
        r == spec_launch_refusal(alive, floor_level, owns_afloat),
{
    if !alive {
        Some(BoatRefusal::Defeated)
    } else if floor_level != OVERWORLD_FLOOR {
        Some(BoatRefusal::NotOutdoors)
    } else if owns_afloat {
        Some(BoatRefusal::AlreadyAfloat)
    } else {
        None
    }
}

/// Launching is for the living, outdoors, with no boat already afloat: a
/// launch goes ahead only then; a dead player is told so first, and a
/// living one anywhere off the overworld floor (a house floor above it or a
/// dungeon below) is told to go outdoors; otherwise a second boat is
/// refused.
pub proof fn lemma_launch_only_outdoors(alive: bool, floor_level: i8, owns_afloat: bool)
    ensures
        spec_launch_refusal(alive, floor_level, owns_afloat) is None <==> (alive && floor_level == OVERWORLD_FLOOR
            && !owns_afloat),
        !alive ==> spec_launch_refusal(alive, floor_level, owns_afloat) == Some(BoatRefusal::Defeated),
        alive && (floor_level > OVERWORLD_FLOOR || floor_level < OVERWORLD_FLOOR) ==> spec_launch_refusal(
            alive,
            floor_level,
            owns_afloat,
        ) == Some(BoatRefusal::NotOutdoors),
        alive && floor_level == OVERWORLD_FLOOR && owns_afloat ==> spec_launch_refusal(alive, floor_level, owns_afloat)
            == Some(BoatRefusal::AlreadyAfloat),
{
}

/// The pack-up checks, in order: only the owner, only at anchor, only
/// with nobody else aboard. (Whether there is shore to step onto is
/// sampled afterwards.)
pub open spec fn spec_stow_refusal(is_owner: bool, sailing: bool, passengers: nat) -> Option<BoatRefusal> {
    if !is_owner {
        Some(BoatRefusal::NotOwnerStow)
    } else if sailing {
        Some(BoatRefusal::StillSailing)
    } else if passengers > 1 {
        Some(BoatRefusal::OthersAboard)
    } else {
        None
    }
}

pub fn stow_refusal(is_owner: bool, sailing: bool, passengers: usize) -> (r: Option<BoatRefusal>)
    ensures
        r == spec_stow_refusal(is_owner, sailing, passengers as nat),
{
    if !is_owner {
        Some(BoatRefusal::NotOwnerStow)
    } else if sailing {
        Some(BoatRefusal::StillSailing)
    } else if passengers > 1 {
        Some(BoatRefusal::OthersAboard)
    } else {
        None
    }
}

/// Who may steer: the player must be aboard some boat (`owner` is the
/// owner of the boat they ride, if any) and own it.
pub fn sail_refusal(player: PlayerId, owner: Option<PlayerId>) -> (r: Option<BoatRefusal>)
    ensures
        r == (match owner {
            None => Some(BoatRefusal::NotAboard),
            Some(o) => if o == player {
                None
            } else {
                Some(BoatRefusal::NotPilot)
            },
        }),
{
    match owner {
        None => Some(BoatRefusal::NotAboard),
        Some(o) => if o == player {
            None
        } else {
            Some(BoatRefusal::NotPilot)
        },
    }
}

/// The riders of a boat with their seats: the seat is the position in the
/// boarding order, the owner first.
pub fn passenger_seats(passengers: &[PlayerId]) -> (r: Vec<BoatPassenger>)
    requires
        passengers@.len() <= 256,
    ensures
        r@.len() == passengers@.len(),
        forall|i: int|
            0 <= i < r@.len() ==> #[trigger] r@[i].player_id == passengers@[i] && r@[i].seat == i,
{
    let mut r: Vec<BoatPassenger> = Vec::new();
    let mut i: usize = 0;
    while i < passengers.len()
        invariant
            passengers@.len() <= 256,
            0 <= i <= passengers@.len(),
            r@.len() == i,
            forall|k: int| 0 <= k < i ==> #[trigger] r@[k].player_id == passengers@[k] && r@[k].seat == k,
        decreases passengers@.len() - i,
    {
        r.push(BoatPassenger { player_id: passengers[i], seat: i as u8 });
        i = i + 1;
    }
    r
}

/// How many of a leg's sample points the boat follows: the leading run of
/// points deep enough to float it; the first shoal ends the route.
pub fn navigable_prefix(deep: &[bool]) -> (n: usize)
    ensures
        n <= deep@.len(),
        forall|k: int| 0 <= k < n ==> #[trigger] deep@[k],
        n < deep@.len() ==> !deep@[n as int],
{
    let mut n: usize = 0;
    while n < deep.len() && deep[n]
        invariant
            n <= deep@.len(),
            forall|k: int| 0 <= k < n ==> #[trigger] deep@[k],
        decreases deep@.len() - n,
    {
        n = n + 1;
    }
    n
}

/// The boat a player rides, among `(boat id, riders)` pairs.
pub fn boat_aboard(boats: &[(u64, Vec<PlayerId>)], player: PlayerId) -> (r: Option<u64>)
    ensures
        r matches Some(id) ==> exists|i: int|
            0 <= i < boats@.len() && #[trigger] boats@[i].0 == id && boats@[i].1@.contains(player),
        r is None ==> forall|i: int| 0 <= i < boats@.len() ==> !(#[trigger] boats@[i].1@).contains(player),
{
    let mut i: usize = 0;
    while i < boats.len()
        invariant
            0 <= i <= boats@.len(),
            forall|k: int| 0 <= k < i ==> !(#[trigger] boats@[k].1@).contains(player),
        decreases boats@.len() - i,
    {
        let riders = &boats[i].1;
        let mut j: usize = 0;
        while j < riders.len()
            invariant
                0 <= i < boats@.len(),
                *riders == boats@[i as int].1,
                0 <= j <= riders@.len(),
                forall|k: int| 0 <= k < j ==> riders@[k] != player,
            decreases riders@.len() - j,
        {
            if riders[j] == player {
                proof {
                    assert(boats@[i as int].1@.contains(player));
                }
                return Some(boats[i].0);
            }
            j = j + 1;
        }
        i = i + 1;
    }
    None
}

/// Packing up is for the owner, at anchor, alone aboard: it goes ahead
/// exactly then; someone else is turned away first, a sailing owner is told
/// to drop anchor, and an anchored owner with company is told to wait.
pub proof fn lemma_stow_only_alone_at_anchor(is_owner: bool, sailing: bool, passengers: nat)
    ensures
        spec_stow_refusal(is_owner, sailing, passengers) is None <==> (is_owner && !sailing && passengers <= 1),
        !is_owner ==> spec_stow_refusal(is_owner, sailing, passengers) == Some(BoatRefusal::NotOwnerStow),
        is_owner && sailing ==> spec_stow_refusal(is_owner, sailing, passengers) == Some(BoatRefusal::StillSailing),
        is_owner && !sailing && passengers >= 2 ==> spec_stow_refusal(is_owner, sailing, passengers) == Some(
            BoatRefusal::OthersAboard,
        ),
{
}

} // verus!
