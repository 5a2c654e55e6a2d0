use obcore::{OrderInterface, TestOrder, STP, TIF};

#[test]
fn order_defaults_and_builders() {
    let order = TestOrder::new("o1", true, 1000, 25);
    assert_eq!(order.id(), "o1");
    assert_eq!(order.owner(), "o1");
    assert!(order.is_buy());
    assert_eq!(order.price(), 1000);
    assert_eq!(order.quantity(), 25);
    assert_eq!(order.remaining(), 25);
    assert_eq!(order.tif(), TIF::GTC);
    assert_eq!(order.stp(), STP::Off);
    assert!(!order.post_only());
    let order = order
        .with_tif(TIF::IOC)
        .with_stp(STP::CancelBoth)
        .with_post_only(true)
        .with_owner("alice");
    assert_eq!(order.id(), "o1");
    assert_eq!(order.owner(), "alice");
    assert_eq!(order.tif(), TIF::IOC);
    assert_eq!(order.stp(), STP::CancelBoth);
    assert!(order.post_only());
    assert_eq!(TIF::default(), TIF::GTC);
    assert_eq!(STP::default(), STP::Off);
}

#[test]
fn order_fill_takes_off_the_remaining_only() {
    let mut order = TestOrder::new("o1", false, 7, 100);
    order.fill(30);
    assert_eq!(order.remaining(), 70);
    assert_eq!(order.quantity(), 100);
    order.fill(70);
    assert_eq!(order.remaining(), 0);
    assert_eq!(order.price(), 7);
    assert!(!order.is_buy());
}
