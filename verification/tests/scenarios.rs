use obcore::{
    Evaluator, Instruction, InstructionPrimitive, Msg, Op, OrderBook, OrderInterface, Output,
    OutputPrimitive, TestOrder, STP, TIF,
};

fn rest(ob: &mut OrderBook<TestOrder>, order: TestOrder) {
    let qty = order.remaining();
    ob.apply_insert(order, qty);
}

fn sell(id: &str, price: u64, qty: u64) -> TestOrder {
    TestOrder::new(id, false, price, qty)
}

fn buy(id: &str, price: u64, qty: u64) -> TestOrder {
    TestOrder::new(id, true, price, qty)
}

fn fill(id: &str, owner: &str, price: u64, qty: u64, is_taker: bool) -> InstructionPrimitive<TestOrder> {
    InstructionPrimitive::Fill(String::from(id), String::from(owner), price, qty, is_taker)
}

fn noop(id: &str, msg: Msg) -> Instruction<TestOrder> {
    Instruction::Single(InstructionPrimitive::NoOp(String::from(id), msg))
}

fn snapshot(ob: &OrderBook<TestOrder>) -> (Vec<(u64, u64)>, Vec<(u64, u64)>, usize) {
    (ob.top_bids(usize::MAX), ob.top_asks(usize::MAX), ob.len())
}

#[test]
fn simple_cross() {
    let mut ob = OrderBook::<TestOrder>::default();
    rest(&mut ob, sell("s1", 1000, 100));
    let mut eval = Evaluator::default();
    let i = eval.eval_insert(&ob, buy("b1", 1000, 100));
    assert_eq!(
        i,
        Instruction::Multi(vec![
            fill("b1", "b1", 1000, 100, true),
            fill("s1", "s1", 1000, 100, false),
        ])
    );
    let out = ob.apply(vec![i]);
    assert!(matches!(&out[0], Output::Multi(v) if v == &vec![OutputPrimitive::NoOp, OutputPrimitive::Filled]));
    assert!(ob.is_empty());
    assert_eq!(ob.bid_depth() + ob.ask_depth(), 0);
}

#[test]
fn walk_two_levels_with_remainder() {
    let mut ob = OrderBook::<TestOrder>::default();
    rest(&mut ob, sell("s1", 1000, 30));
    rest(&mut ob, sell("s2", 1001, 40));
    let order = buy("b1", 1001, 100);
    let mut eval = Evaluator::default();
    let i = eval.eval_insert(&ob, order.clone());
    assert_eq!(
        i,
        Instruction::Multi(vec![
            fill("b1", "b1", 1000, 70, true),
            fill("s1", "s1", 1000, 30, false),
            fill("s2", "s2", 1001, 40, false),
            InstructionPrimitive::Insert(order, 30),
        ])
    );
    ob.apply(vec![i]);
    assert_eq!(ob.ask_depth(), 0);
    assert_eq!(ob.top_bids(5), vec![(1001, 30)]);
    let b1 = ob.order(&String::from("b1")).unwrap();
    assert_eq!((b1.price(), b1.remaining(), b1.quantity()), (1001, 30, 100));
}

#[test]
fn fok_partial_rejection() {
    let mut ob = OrderBook::<TestOrder>::default();
    rest(&mut ob, sell("s1", 1000, 50));
    let before = snapshot(&ob);
    let mut eval = Evaluator::default();
    let i = eval.eval_insert(&ob, buy("b1", 1000, 100).with_tif(TIF::FOK));
    assert_eq!(i, noop("b1", Msg::FOKNotFilled));
    let out = ob.apply(vec![i]);
    assert!(matches!(&out[0], Output::Single(OutputPrimitive::NoOp)));
    assert_eq!(snapshot(&ob), before);
}

#[test]
fn ioc_leftover() {
    let mut ob = OrderBook::<TestOrder>::default();
    rest(&mut ob, sell("s1", 1000, 50));
    let mut eval = Evaluator::default();
    let i = eval.eval_insert(&ob, buy("b1", 1000, 100).with_tif(TIF::IOC));
    assert_eq!(
        i,
        Instruction::Multi(vec![
            fill("b1", "b1", 1000, 50, true),
            fill("s1", "s1", 1000, 50, false),
            InstructionPrimitive::Delete(String::from("b1"), Msg::IOCLeftover),
        ])
    );
    let out = ob.apply(vec![i]);
    assert!(matches!(&out[0], Output::Multi(v) if v == &vec![
        OutputPrimitive::NoOp,
        OutputPrimitive::Filled,
        OutputPrimitive::Deleted,
    ]));
    assert!(!ob.contains("s1"));
    assert!(!ob.contains("b1"));
    assert!(ob.is_empty());
}

#[test]
fn post_only_rejects_on_cross() {
    let mut ob = OrderBook::<TestOrder>::default();
    rest(&mut ob, sell("s1", 1000, 100));
    let before = snapshot(&ob);
    let mut eval = Evaluator::default();
    let i = eval.eval_insert(&ob, buy("b1", 1000, 100).with_post_only(true));
    assert_eq!(i, noop("b1", Msg::PostOnlyFilled));
    ob.apply(vec![i]);
    assert_eq!(snapshot(&ob), before);
}

#[test]
fn stp_cancel_maker_partial_fill() {
    let mut ob = OrderBook::<TestOrder>::default();
    rest(&mut ob, sell("s1", 1000, 50).with_owner("alice"));
    rest(&mut ob, sell("s2", 1000, 50).with_owner("bob"));
    let order = buy("b1", 1000, 100)
        .with_owner("alice")
        .with_stp(STP::CancelMaker);
    let mut eval = Evaluator::default();
    let i = eval.eval_insert(&ob, order.clone());
    assert_eq!(
        i,
        Instruction::Multi(vec![
            fill("b1", "alice", 1000, 50, true),
            fill("s2", "bob", 1000, 50, false),
            InstructionPrimitive::Delete(String::from("s1"), Msg::StpCancelMaker),
            InstructionPrimitive::Insert(order, 50),
        ])
    );
    ob.apply(vec![i]);
    assert!(!ob.contains("s1"));
    assert!(!ob.contains("s2"));
    assert_eq!(ob.top_bids(5), vec![(1000, 50)]);
    assert_eq!(ob.ask_depth(), 0);
    assert_eq!(ob.order(&String::from("b1")).unwrap().remaining(), 50);
}

#[test]
fn insert_with_nothing_left_does_not_rest() {
    let mut ob = OrderBook::<TestOrder>::default();
    rest(&mut ob, sell("s1", 1000, 50));
    let before = snapshot(&ob);
    let out = ob.apply(vec![Instruction::Single(InstructionPrimitive::Insert(
        buy("b1", 900, 100),
        0,
    ))]);
    assert!(matches!(&out[0], Output::Single(OutputPrimitive::Inserted(0))));
    assert!(!ob.contains("b1"));
    assert_eq!(snapshot(&ob), before);
    // the evaluator rests an order with nothing only if it came with nothing
    let mut eval = Evaluator::default();
    let empty = buy("b2", 900, 0);
    assert_eq!(
        eval.eval_insert(&ob, empty.clone()),
        Instruction::Single(InstructionPrimitive::Insert(empty, 0))
    );
    assert_eq!(
        eval.eval_insert(&ob, buy("b3", 900, 0).with_tif(TIF::IOC)),
        noop("b3", Msg::IOCNoFill)
    );
}

#[test]
fn post_only_rests_on_empty_opposite_side() {
    let mut ob = OrderBook::<TestOrder>::default();
    rest(&mut ob, buy("b0", 990, 10));
    let order = buy("b1", 1000, 100).with_post_only(true);
    let mut eval = Evaluator::default();
    let i = eval.eval_insert(&ob, order.clone());
    assert_eq!(i, Instruction::Single(InstructionPrimitive::Insert(order, 100)));
    ob.apply(vec![i]);
    assert_eq!(ob.best_bid(), Some((1000, 100)));
}

#[test]
fn fok_exactly_matching_available_quantity() {
    let mut ob = OrderBook::<TestOrder>::default();
    rest(&mut ob, sell("s1", 1000, 30));
    rest(&mut ob, sell("s2", 1000, 30));
    rest(&mut ob, sell("s3", 1002, 40));
    let mut eval = Evaluator::default();
    let i = eval.eval_insert(&ob, buy("b1", 1002, 100).with_tif(TIF::FOK));
    assert_eq!(
        i,
        Instruction::Multi(vec![
            fill("b1", "b1", 1000, 100, true),
            fill("s1", "s1", 1000, 30, false),
            fill("s2", "s2", 1000, 30, false),
            fill("s3", "s3", 1002, 40, false),
        ])
    );
    ob.apply(vec![i]);
    assert!(ob.is_empty());
}

#[test]
fn ioc_taking_all_liquidity_with_leftover() {
    let mut ob = OrderBook::<TestOrder>::default();
    rest(&mut ob, buy("b1", 1000, 10));
    rest(&mut ob, buy("b2", 999, 20));
    rest(&mut ob, buy("b3", 990, 5));
    let mut eval = Evaluator::default();
    let i = eval.eval_insert(&ob, sell("s1", 995, 100).with_tif(TIF::IOC));
    assert_eq!(
        i,
        Instruction::Multi(vec![
            fill("s1", "s1", 999, 30, true),
            fill("b1", "b1", 1000, 10, false),
            fill("b2", "b2", 999, 20, false),
            InstructionPrimitive::Delete(String::from("s1"), Msg::IOCLeftover),
        ])
    );
    ob.apply(vec![i]);
    assert_eq!(ob.top_bids(5), vec![(990, 5)]);
    assert_eq!(ob.ask_depth(), 0);
}

#[test]
fn cancel_twice_in_one_batch() {
    let mut ob = OrderBook::<TestOrder>::default();
    rest(&mut ob, sell("s1", 1000, 50));
    let mut eval = Evaluator::default();
    let i = eval.eval(
        &ob,
        vec![Op::Delete(String::from("s1")), Op::Delete(String::from("s1"))],
    );
    assert_eq!(
        i,
        vec![
            Instruction::Single(InstructionPrimitive::Delete(
                String::from("s1"),
                Msg::UserCancelled
            )),
            noop("s1", Msg::OrderNotFound),
        ]
    );
    ob.apply(i);
    assert!(ob.is_empty());
}

#[test]
fn cancel_of_an_order_matched_away_in_the_batch() {
    let mut ob = OrderBook::<TestOrder>::default();
    rest(&mut ob, sell("s1", 1000, 50));
    let mut eval = Evaluator::default();
    let i = eval.eval(
        &ob,
        vec![
            Op::Insert(buy("b1", 1000, 50).with_tif(TIF::IOC)),
            Op::Delete(String::from("s1")),
        ],
    );
    assert_eq!(i[1], noop("s1", Msg::OrderNotFound));
    // one that was matched in part is still there to be cancelled
    let mut eval = Evaluator::default();
    let i = eval.eval(
        &ob,
        vec![
            Op::Insert(buy("b2", 1000, 20).with_tif(TIF::IOC)),
            Op::Delete(String::from("s1")),
            Op::Insert(buy("b3", 1000, 20).with_tif(TIF::IOC)),
        ],
    );
    assert_eq!(
        i[1],
        Instruction::Single(InstructionPrimitive::Delete(
            String::from("s1"),
            Msg::UserCancelled
        ))
    );
    assert_eq!(i[2], noop("b3", Msg::IOCNoFill));
}

#[test]
fn insert_then_cancel_gives_the_book_back() {
    let mut ob = OrderBook::<TestOrder>::default();
    rest(&mut ob, sell("s1", 1000, 50));
    rest(&mut ob, buy("b1", 990, 20));
    rest(&mut ob, buy("b2", 980, 20));
    let before = snapshot(&ob);
    let depth = (ob.bid_depth(), ob.ask_depth());
    for (id, price) in [("n1", 990), ("n2", 985), ("n3", 995), ("n4", 970)] {
        let mut eval = Evaluator::default();
        let i = eval.eval_insert(&ob, buy(id, price, 7));
        assert!(matches!(&i, Instruction::Single(InstructionPrimitive::Insert(_, 7))));
        ob.apply(vec![i]);
        assert_eq!(ob.len(), before.2 + 1);
        let c = eval.eval_cancel(&ob, String::from(id));
        assert_eq!(
            c,
            Instruction::Single(InstructionPrimitive::Delete(
                String::from(id),
                Msg::UserCancelled
            ))
        );
        ob.apply(vec![c]);
        assert_eq!(snapshot(&ob), before);
        assert_eq!((ob.bid_depth(), ob.ask_depth()), depth);
        assert_eq!(ob.best_bid(), Some((990, 20)));
    }
}

#[test]
fn batch_and_one_by_one_agree() {
    let ops = || {
        vec![
            Op::Insert(buy("t1", 1001, 40).with_tif(TIF::IOC)),
            Op::Delete(String::from("s2")),
            Op::Insert(buy("t2", 1002, 40).with_tif(TIF::IOC)),
            Op::Delete(String::from("s1")),
            Op::Insert(buy("t3", 1002, 20).with_tif(TIF::FOK)),
        ]
    };
    let book = || {
        let mut ob = OrderBook::<TestOrder>::default();
        rest(&mut ob, sell("s1", 1000, 30));
        rest(&mut ob, sell("s2", 1001, 40));
        rest(&mut ob, sell("s3", 1002, 50));
        ob
    };
    let mut batched = book();
    let mut eval = Evaluator::default();
    let instructions = eval.eval(&batched, ops());
    let mut stepped = book();
    let mut one_by_one = Vec::new();
    for op in ops() {
        let mut fresh = Evaluator::default();
        let mut is = fresh.eval(&stepped, vec![op]);
        let i = is.pop().unwrap();
        one_by_one.push(format!("{:?}", i));
        stepped.apply(vec![i]);
    }
    let batch_text: Vec<String> = instructions.iter().map(|i| format!("{:?}", i)).collect();
    assert_eq!(batch_text, one_by_one);
    batched.apply(instructions);
    assert_eq!(snapshot(&batched), snapshot(&stepped));
    assert_eq!(snapshot(&batched), (vec![], vec![(1002, 10)], 1));
}

#[test]
fn reset_forgets_the_batch() {
    let mut ob = OrderBook::<TestOrder>::default();
    rest(&mut ob, sell("s1", 1000, 50));
    let mut eval = Evaluator::default();
    let first = eval.eval_insert(&ob, buy("b1", 1000, 50).with_tif(TIF::IOC));
    // without a reset the maker counts as spent
    assert_eq!(
        eval.eval_insert(&ob, buy("b2", 1000, 50).with_tif(TIF::IOC)),
        noop("b2", Msg::IOCNoFill)
    );
    eval.reset();
    let again = eval.eval_insert(&ob, buy("b1", 1000, 50).with_tif(TIF::IOC));
    assert_eq!(first, again);
    let mut fresh = Evaluator::default();
    assert_eq!(again, fresh.eval_insert(&ob, buy("b1", 1000, 50).with_tif(TIF::IOC)));
}

#[test]
fn rejected_fill_or_kill_leaves_no_trace() {
    let mut ob = OrderBook::<TestOrder>::default();
    rest(&mut ob, sell("s1", 1000, 50).with_owner("alice"));
    let mut eval = Evaluator::default();
    let killed = eval.eval_insert(
        &ob,
        buy("b1", 1000, 100)
            .with_owner("alice")
            .with_stp(STP::CancelMaker)
            .with_tif(TIF::FOK),
    );
    assert_eq!(killed, noop("b1", Msg::FOKNotFilled));
    // the maker it would have cancelled is still there for the next taker
    let i = eval.eval_insert(&ob, buy("b2", 1000, 50).with_owner("bob"));
    assert_eq!(
        i,
        Instruction::Multi(vec![
            fill("b2", "bob", 1000, 50, true),
            fill("s1", "alice", 1000, 50, false),
        ])
    );
}

#[test]
fn post_only_comes_before_self_trade_prevention() {
    let mut ob = OrderBook::<TestOrder>::default();
    rest(&mut ob, sell("s1", 1000, 50).with_owner("alice"));
    let mut eval = Evaluator::default();
    let i = eval.eval_insert(
        &ob,
        buy("b1", 1000, 10)
            .with_owner("alice")
            .with_stp(STP::CancelBoth)
            .with_post_only(true),
    );
    assert_eq!(i, noop("b1", Msg::PostOnlyFilled));
}

#[test]
fn stp_cancel_both_drops_earlier_fills() {
    let mut ob = OrderBook::<TestOrder>::default();
    rest(&mut ob, sell("s1", 1000, 10).with_owner("bob"));
    rest(&mut ob, sell("s2", 1000, 10).with_owner("alice"));
    let mut eval = Evaluator::default();
    let i = eval.eval(
        &ob,
        vec![
            Op::Insert(buy("b1", 1000, 30).with_owner("alice").with_stp(STP::CancelBoth)),
            Op::Insert(buy("b2", 1000, 30).with_owner("carol").with_tif(TIF::IOC)),
        ],
    );
    assert_eq!(
        i[0],
        Instruction::Multi(vec![
            InstructionPrimitive::NoOp(String::from("b1"), Msg::StpCancelBoth),
            InstructionPrimitive::Delete(String::from("s2"), Msg::StpCancelBoth),
        ])
    );
    // s1 was not taken by the rejected taker; s2 is gone for the batch
    assert_eq!(
        i[1],
        Instruction::Multi(vec![
            fill("b2", "carol", 1000, 10, true),
            fill("s1", "bob", 1000, 10, false),
            InstructionPrimitive::Delete(String::from("b2"), Msg::IOCLeftover),
        ])
    );
}

#[test]
fn fills_keep_price_then_time_priority() {
    let mut ob = OrderBook::<TestOrder>::default();
    rest(&mut ob, buy("b1", 100, 5));
    rest(&mut ob, buy("b2", 102, 5));
    rest(&mut ob, buy("b3", 102, 5));
    rest(&mut ob, buy("b4", 101, 5));
    rest(&mut ob, buy("b5", 99, 5));
    let mut eval = Evaluator::default();
    let i = eval.eval_insert(&ob, sell("s1", 100, 18));
    assert_eq!(
        i,
        Instruction::Multi(vec![
            // (102 * 10 + 101 * 5 + 100 * 3) / 18 = 1825 / 18, rounded down
            fill("s1", "s1", 101, 18, true),
            fill("b2", "b2", 102, 5, false),
            fill("b3", "b3", 102, 5, false),
            fill("b4", "b4", 101, 5, false),
            fill("b1", "b1", 100, 3, false),
        ])
    );
    let out = ob.apply(vec![i]);
    assert!(matches!(&out[0], Output::Multi(v) if v == &vec![
        OutputPrimitive::NoOp,
        OutputPrimitive::Filled,
        OutputPrimitive::Filled,
        OutputPrimitive::Filled,
        OutputPrimitive::Partial,
    ]));
    assert_eq!(ob.top_bids(5), vec![(100, 2), (99, 5)]);
    assert_eq!(ob.len(), 2);
}

#[test]
fn average_price_does_not_overflow() {
    let mut ob = OrderBook::<TestOrder>::default();
    rest(&mut ob, sell("s1", u64::MAX - 1, u64::MAX / 2));
    rest(&mut ob, sell("s2", u64::MAX, u64::MAX / 2));
    let mut eval = Evaluator::default();
    let i = eval.eval_insert(&ob, buy("b1", u64::MAX, u64::MAX - 1).with_tif(TIF::FOK));
    assert_eq!(
        i,
        Instruction::Multi(vec![
            fill("b1", "b1", u64::MAX - 1, u64::MAX - 1, true),
            fill("s1", "s1", u64::MAX - 1, u64::MAX / 2, false),
            fill("s2", "s2", u64::MAX, u64::MAX / 2, false),
        ])
    );
}

#[test]
fn time_priority_within_a_level_survives_other_orders_leaving() {
    let mut ob = OrderBook::<TestOrder>::default();
    for id in ["a", "b", "c", "d"] {
        rest(&mut ob, sell(id, 50, 1));
    }
    ob.apply_delete(String::from("b"));
    ob.apply(vec![Instruction::Single(fill("a", "a", 50, 1, false))]);
    rest(&mut ob, sell("e", 50, 1));
    let ids: Vec<String> = ob
        .asks()
        .next()
        .unwrap()
        .iter(ob.pool())
        .map(|o| o.id().clone())
        .collect();
    assert_eq!(ids, vec!["c", "d", "e"]);
    let mut eval = Evaluator::default();
    let i = eval.eval_insert(&ob, buy("t", 50, 2).with_tif(TIF::IOC));
    assert_eq!(
        i,
        Instruction::Multi(vec![
            fill("t", "t", 50, 2, true),
            fill("c", "c", 50, 1, false),
            fill("d", "d", 50, 1, false),
        ])
    );
}

#[test]
fn apply_reports_one_output_per_instruction() {
    let mut ob = OrderBook::<TestOrder>::default();
    rest(&mut ob, sell("s1", 1000, 50));
    let out = ob.apply(vec![
        Instruction::Single(InstructionPrimitive::NoOp(String::from("x"), Msg::IOCNoFill)),
        Instruction::Single(fill("t", "t", 1000, 20, true)),
        Instruction::Single(fill("s1", "s1", 1000, 20, false)),
        Instruction::Multi(vec![]),
        Instruction::Single(InstructionPrimitive::Delete(String::from("s1"), Msg::UserCancelled)),
        Instruction::Single(InstructionPrimitive::Delete(String::from("s1"), Msg::UserCancelled)),
    ]);
    assert_eq!(out.len(), 6);
    assert!(matches!(&out[0], Output::Single(OutputPrimitive::NoOp)));
    assert!(matches!(&out[1], Output::Single(OutputPrimitive::NoOp)));
    assert!(matches!(&out[2], Output::Single(OutputPrimitive::Partial)));
    assert!(matches!(&out[3], Output::Multi(v) if v.is_empty()));
    assert!(matches!(&out[4], Output::Single(OutputPrimitive::Deleted)));
    assert!(matches!(&out[5], Output::Single(OutputPrimitive::Deleted)));
    assert!(ob.is_empty());
    assert_eq!(ob.opposite(true).height(), 0);
}
