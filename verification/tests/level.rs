use obcore::{Level, OrderInterface, Pool, TestOrder, NIL};

#[test]
fn test_new_level() {
    let level = Level::<TestOrder>::new(100);
    assert_eq!(level.price(), 100);
    assert_eq!(level.total_quantity(), 0);
    assert_eq!(level.len(), 0);
    assert!(level.is_empty());
}

#[test]
fn test_add_order() {
    let mut pool = Pool::new();
    let mut level = Level::<TestOrder>::new(100);
    level.add_order(TestOrder::new("1", true, 100, 50), &mut pool);
    assert_eq!(level.total_quantity(), 50);
    assert_eq!(level.len(), 1);
    assert!(!level.is_empty());
}

#[test]
fn test_add_multiple_orders() {
    let mut pool = Pool::new();
    let mut level = Level::<TestOrder>::new(100);
    level.add_order(TestOrder::new("1", true, 100, 50), &mut pool);
    level.add_order(TestOrder::new("2", true, 100, 30), &mut pool);
    level.add_order(TestOrder::new("3", true, 100, 20), &mut pool);
    assert_eq!(level.total_quantity(), 100);
    assert_eq!(level.len(), 3);
}

#[test]
fn level_test_remove_order() {
    let mut pool = Pool::new();
    let mut level = Level::<TestOrder>::new(100);
    level.add_order(TestOrder::new("1", true, 100, 50), &mut pool);
    let node = level.add_order(TestOrder::new("2", true, 100, 30), &mut pool);
    level.add_order(TestOrder::new("3", true, 100, 20), &mut pool);
    level.remove_order(node, &mut pool);
    assert_eq!(level.total_quantity(), 70);
    assert_eq!(level.len(), 2);
}

#[test]
fn test_remove_nonexistent_order() {
    let mut pool = Pool::new();
    let mut level = Level::<TestOrder>::new(100);
    level.add_order(TestOrder::new("1", true, 50, 50), &mut pool);
    level.remove_order(NIL, &mut pool);
    assert_eq!(level.total_quantity(), 50);
    assert_eq!(level.len(), 1);
}

#[test]
fn level_test_iter() {
    let mut pool = Pool::new();
    let mut level = Level::<TestOrder>::new(100);
    level.add_order(TestOrder::new("1", true, 100, 50), &mut pool);
    level.add_order(TestOrder::new("2", true, 100, 30), &mut pool);
    level.add_order(TestOrder::new("3", true, 100, 20), &mut pool);

    let ids: Vec<&String> = level.iter(&pool).map(|o| o.id()).collect();
    assert_eq!(ids, vec!["1", "2", "3"]);
}

#[test]
fn level_test_iter_mut() {
    let mut pool = Pool::new();
    let mut level = Level::<TestOrder>::new(100);
    level.add_order(TestOrder::new("1", true, 100, 50), &mut pool);
    level.add_order(TestOrder::new("2", true, 100, 30), &mut pool);

    let count = level.iter_mut(&pool).count();
    assert_eq!(count, 2);
}

#[test]
fn test_fill_order_partial() {
    let mut pool = Pool::new();
    let mut level = Level::<TestOrder>::new(100);
    let node = level.add_order(TestOrder::new("1", true, 100, 100), &mut pool);
    let removed = level.fill_order(node, 30, &mut pool);
    assert!(!removed);
    assert_eq!(level.total_quantity(), 70);
    assert_eq!(level.len(), 1);
}

#[test]
fn test_fill_order_complete() {
    let mut pool = Pool::new();
    let mut level = Level::<TestOrder>::new(100);
    let node = level.add_order(TestOrder::new("1", true, 100, 100), &mut pool);
    let removed = level.fill_order(node, 100, &mut pool);
    assert!(removed);
    assert_eq!(level.total_quantity(), 0);
    assert_eq!(level.len(), 0);
    assert!(level.is_empty());
}

#[test]
fn level_total_is_the_sum_of_what_remains() {
    let mut pool = Pool::new();
    let mut level = Level::<TestOrder>::new(7);
    let a = level.add_order(TestOrder::new("a", false, 7, 10), &mut pool);
    let b = level.add_order(TestOrder::new("b", false, 7, 20), &mut pool);
    let c = level.add_order(TestOrder::new("c", false, 7, 30), &mut pool);
    assert!(!level.fill_order(b, 5, &mut pool));
    assert_eq!(pool.get(b).remaining(), 15);
    assert_eq!(pool.get(b).quantity(), 20);
    let rest: u64 = level.iter(&pool).map(|o| o.remaining()).sum();
    assert_eq!(rest, 55);
    assert_eq!(level.total_quantity(), 55);
    assert!(level.fill_order(a, 10, &mut pool));
    level.remove_order(c, &mut pool);
    assert_eq!(level.total_quantity(), 15);
    let ids: Vec<&String> = level.iter(&pool).map(|o| o.id()).collect();
    assert_eq!(ids, vec!["b"]);
    assert_eq!(level.front(&pool), b);
    assert_eq!(level.next(b, &pool), NIL);
}
