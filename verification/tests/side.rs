use obcore::{OrderInterface, Pool, Side, TestOrder};

#[test]
fn test_new_side() {
    let side = Side::<TestOrder>::new(true);
    assert!(side.is_empty());
    assert_eq!(side.height(), 0);
}

#[test]
fn test_insert_order() {
    let mut pool = Pool::new();
    let mut side = Side::<TestOrder>::new(true);
    let _node = side.insert_order(TestOrder::new("1", true, 100, 50), &mut pool);
    assert!(!side.is_empty());
    assert_eq!(side.height(), 1);
}

#[test]
fn test_insert_multiple_orders_same_price() {
    let mut pool = Pool::new();
    let mut side = Side::<TestOrder>::new(true);
    side.insert_order(TestOrder::new("1", true, 100, 50), &mut pool);
    side.insert_order(TestOrder::new("2", true, 100, 30), &mut pool);
    assert_eq!(side.height(), 1);
}

#[test]
fn test_insert_orders_different_prices() {
    let mut pool = Pool::new();
    let mut side = Side::<TestOrder>::new(true);
    side.insert_order(TestOrder::new("1", true, 100, 50), &mut pool);
    side.insert_order(TestOrder::new("2", true, 200, 30), &mut pool);
    side.insert_order(TestOrder::new("3", true, 150, 20), &mut pool);
    assert_eq!(side.height(), 3);
}

#[test]
fn side_test_remove_order() {
    let mut pool = Pool::new();
    let mut side = Side::<TestOrder>::new(true);
    let node = side.insert_order(TestOrder::new("1", true, 100, 50), &mut pool);
    side.insert_order(TestOrder::new("2", true, 100, 30), &mut pool);
    side.remove_order(node, &mut pool);
    assert_eq!(side.height(), 1);
}

#[test]
fn test_remove_order_single_order() {
    let mut pool = Pool::new();
    let mut side = Side::<TestOrder>::new(true);
    let node = side.insert_order(TestOrder::new("1", true, 100, 50), &mut pool);
    side.remove_order(node, &mut pool);
    let level_count: usize = side.iter().count();
    assert_eq!(level_count, 0);
}

#[test]
fn test_iter_bids() {
    let mut pool = Pool::new();
    let mut side = Side::<TestOrder>::new(true);
    side.insert_order(TestOrder::new("1", true, 100, 50), &mut pool);
    side.insert_order(TestOrder::new("2", true, 300, 30), &mut pool);
    side.insert_order(TestOrder::new("3", true, 200, 20), &mut pool);
    let prices: Vec<u64> = side.iter().map(|level| level.price()).collect();
    assert_eq!(prices, vec![300, 200, 100]);
}

#[test]
fn test_iter_asks() {
    let mut pool = Pool::new();
    let mut side = Side::<TestOrder>::new(false);
    side.insert_order(TestOrder::new("1", false, 100, 50), &mut pool);
    side.insert_order(TestOrder::new("2", false, 300, 30), &mut pool);
    side.insert_order(TestOrder::new("3", false, 200, 20), &mut pool);
    let prices: Vec<u64> = side.iter().map(|level| level.price()).collect();
    assert_eq!(prices, vec![100, 200, 300]);
}

#[test]
fn side_test_iter_mut() {
    let mut pool = Pool::new();
    let mut side = Side::<TestOrder>::new(true);
    side.insert_order(TestOrder::new("1", true, 100, 50), &mut pool);
    side.insert_order(TestOrder::new("2", true, 200, 30), &mut pool);
    for level in side.iter_mut() {
        let _ = level.price();
    }
    assert_eq!(side.height(), 2);
}

#[test]
fn test_height() {
    let mut pool = Pool::new();
    let mut side = Side::<TestOrder>::new(true);
    assert_eq!(side.height(), 0);
    side.insert_order(TestOrder::new("1", true, 100, 50), &mut pool);
    assert_eq!(side.height(), 1);
    side.insert_order(TestOrder::new("2", true, 200, 30), &mut pool);
    assert_eq!(side.height(), 2);
    side.insert_order(TestOrder::new("3", true, 100, 20), &mut pool);
    assert_eq!(side.height(), 2);
}

#[test]
fn side_best_and_top_follow_precedence() {
    let mut pool = Pool::new();
    let mut bids = Side::<TestOrder>::new(true);
    let mut asks = Side::<TestOrder>::new(false);
    assert_eq!(bids.best(), None);
    assert_eq!(asks.top(3), vec![]);
    for (id, price, qty) in [("a", 10, 1), ("b", 30, 2), ("c", 20, 3), ("d", 30, 4)] {
        bids.insert_order(TestOrder::new(id, true, price, qty), &mut pool);
    }
    for (id, price, qty) in [("e", 50, 5), ("f", 40, 6), ("g", 60, 7)] {
        asks.insert_order(TestOrder::new(id, false, price, qty), &mut pool);
    }
    assert_eq!(bids.best(), Some((30, 6)));
    assert_eq!(asks.best(), Some((40, 6)));
    assert_eq!(bids.top(2), vec![(30, 6), (20, 3)]);
    assert_eq!(bids.top(0), vec![]);
    assert_eq!(asks.top(9), vec![(40, 6), (50, 5), (60, 7)]);
    assert_eq!(bids.level(1).price(), 20);
}

#[test]
fn side_fill_removes_spent_orders_and_empty_levels() {
    let mut pool = Pool::new();
    let mut asks = Side::<TestOrder>::new(false);
    let a = asks.insert_order(TestOrder::new("a", false, 100, 10), &mut pool);
    let b = asks.insert_order(TestOrder::new("b", false, 100, 20), &mut pool);
    let c = asks.insert_order(TestOrder::new("c", false, 90, 30), &mut pool);
    assert!(!asks.fill_order(a, 4, &mut pool));
    assert_eq!(asks.top(5), vec![(90, 30), (100, 26)]);
    assert!(asks.fill_order(c, 30, &mut pool));
    assert_eq!(asks.top(5), vec![(100, 26)]);
    assert!(asks.fill_order(a, 6, &mut pool));
    let ids: Vec<&String> = asks.level(0).iter(&pool).map(|o| o.id()).collect();
    assert_eq!(ids, vec!["b"]);
    asks.remove_order(b, &mut pool);
    assert!(asks.is_empty());
    assert!(pool.has_free());
}
