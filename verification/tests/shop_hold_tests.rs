use onlinerpg::shop_holds::{OpenShops, SHOP_HOLD_TICKS};

fn holds(shops: &OpenShops, merchant: u64) -> Option<Vec<(u64, u8)>> {
    shops.shops.iter().find(|s| s.merchant == merchant).map(|s| s.customers.clone())
}

#[test]
fn first_customer_makes_the_npc_busy() {
    let mut shops = OpenShops::new();
    assert!(shops.open(100, 1));
    assert!(!shops.open(100, 2));
    assert_eq!(holds(&shops, 100), Some(vec![(1, SHOP_HOLD_TICKS), (2, SHOP_HOLD_TICKS)]));
}

#[test]
fn reopening_does_not_refresh_the_hold() {
    let mut shops = OpenShops::new();
    shops.open(100, 1);
    shops.tick();
    assert!(!shops.open(100, 1));
    assert_eq!(holds(&shops, 100), Some(vec![(1, SHOP_HOLD_TICKS - 1)]));
}

#[test]
fn holds_run_out_after_four_ticks() {
    let mut shops = OpenShops::new();
    shops.open(100, 1);
    shops.open(200, 2);
    assert!(shops.tick().is_empty());
    shops.open(200, 3);
    assert!(shops.tick().is_empty());
    assert!(shops.tick().is_empty());
    // The fourth tick ends both first windows; 200 still has customer 3.
    assert_eq!(shops.tick(), vec![100]);
    assert_eq!(holds(&shops, 200), Some(vec![(3, 1)]));
    assert_eq!(shops.tick(), vec![200]);
    assert!(shops.shops.is_empty());
}

#[test]
fn closing_the_last_window_frees_the_npc() {
    let mut shops = OpenShops::new();
    shops.open(100, 1);
    shops.open(100, 2);
    assert!(!shops.close(1, 100));
    assert!(shops.close(2, 100));
    assert!(holds(&shops, 100).is_none());
    // Closing a window that was never open changes nothing.
    assert!(!shops.close(3, 100));
}

#[test]
fn a_leaving_player_frees_only_the_npcs_it_alone_held() {
    let mut shops = OpenShops::new();
    shops.open(100, 1);
    shops.open(200, 1);
    shops.open(200, 2);
    shops.open(1, 9);
    let freed = shops.clear_player(1);
    assert_eq!(freed, vec![100]);
    assert!(holds(&shops, 1).is_none());
    assert_eq!(holds(&shops, 200), Some(vec![(2, SHOP_HOLD_TICKS)]));
}
