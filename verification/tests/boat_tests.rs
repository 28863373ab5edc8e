use onlinerpg::boats::{
    boat_aboard, launch_refusal, navigable_prefix, passenger_seats, sail_refusal, stow_refusal, BoatRefusal,
};

#[test]
fn launching_needs_a_living_player_outdoors_without_a_boat_afloat() {
    assert_eq!(launch_refusal(false, 0, false), Some(BoatRefusal::Defeated));
    assert_eq!(launch_refusal(true, -1, false), Some(BoatRefusal::NotOutdoors));
    assert_eq!(launch_refusal(true, 0, true), Some(BoatRefusal::AlreadyAfloat));
    assert_eq!(launch_refusal(true, 0, false), None);
    assert_eq!(BoatRefusal::AlreadyAfloat.message(), "Your boat is already in the water.");
}

#[test]
fn packing_up_needs_the_owner_at_anchor_alone() {
    assert_eq!(stow_refusal(false, false, 1), Some(BoatRefusal::NotOwnerStow));
    assert_eq!(stow_refusal(true, true, 1), Some(BoatRefusal::StillSailing));
    assert_eq!(stow_refusal(true, false, 2), Some(BoatRefusal::OthersAboard));
    assert_eq!(stow_refusal(true, false, 1), None);
    assert_eq!(BoatRefusal::OthersAboard.message(), "You cannot pack up the boat while others are aboard.");
}

#[test]
fn only_the_owner_aboard_steers() {
    assert_eq!(sail_refusal(7, None), Some(BoatRefusal::NotAboard));
    assert_eq!(sail_refusal(7, Some(8)), Some(BoatRefusal::NotPilot));
    assert_eq!(sail_refusal(7, Some(7)), None);
    assert_eq!(BoatRefusal::NotPilot.message(), "Only the owner holds the tiller.");
}

#[test]
fn seats_follow_the_boarding_order() {
    let seats = passenger_seats(&[40, 12, 99]);
    assert_eq!(seats.len(), 3);
    assert_eq!((seats[0].player_id, seats[0].seat), (40, 0));
    assert_eq!((seats[2].player_id, seats[2].seat), (99, 2));
    assert!(passenger_seats(&[]).is_empty());
}

#[test]
fn a_shoal_truncates_the_route() {
    assert_eq!(navigable_prefix(&[true, true, false, true]), 2);
    assert_eq!(navigable_prefix(&[false, true]), 0);
    assert_eq!(navigable_prefix(&[true, true]), 2);
}

#[test]
fn riders_are_found_on_their_boat() {
    let boats = vec![(1u64, vec![10u64, 11]), (2u64, vec![20u64])];
    assert_eq!(boat_aboard(&boats, 11), Some(1));
    assert_eq!(boat_aboard(&boats, 20), Some(2));
    assert_eq!(boat_aboard(&boats, 30), None);
}
