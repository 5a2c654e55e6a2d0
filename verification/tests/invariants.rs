use obcore::{
    Evaluator, Instruction, InstructionPrimitive, Op, OrderBook, OrderInterface, TestOrder, STP, TIF,
};
use std::collections::HashSet;

struct Dice(u64);

impl Dice {
    fn roll(&mut self, sides: u64) -> u64 {
        self.0 = self
            .0
            .wrapping_mul(6364136223846793005)
            .wrapping_add(1442695040888963407);
        (self.0 >> 33) % sides
    }
}

fn check_book(ob: &OrderBook<TestOrder>) {
    let mut seen = HashSet::new();
    let mut count = 0;
    for (is_bid, levels) in [(true, ob.bids()), (false, ob.asks())] {
        let mut last: Option<u64> = None;
        for level in levels {
            // no empty level, levels in strict precedence order
            assert!(!level.is_empty());
            if let Some(price) = last {
                assert!(if is_bid { price > level.price() } else { price < level.price() });
            }
            last = Some(level.price());
            let mut sum = 0;
            let mut orders = 0;
            for order in level.iter(ob.pool()) {
                // each order at its level's price, on its side, with something left
                assert_eq!(order.price(), level.price());
                assert_eq!(order.is_buy(), is_bid);
                assert!(order.remaining() > 0);
                assert!(order.remaining() <= order.quantity());
                // found again by its identifier, and by no other place
                assert!(seen.insert(order.id().clone()));
                assert_eq!(ob.order(order.id()), Some(order));
                sum += order.remaining();
                orders += 1;
            }
            // the cached total is the sum of what remains
            assert_eq!(level.total_quantity(), sum);
            assert_eq!(level.len(), orders);
            count += orders;
        }
    }
    assert_eq!(ob.len(), count);
    assert_eq!(ob.is_empty(), count == 0);
    assert_eq!(ob.best_bid(), ob.top_bids(1).first().copied());
    assert_eq!(ob.best_ask(), ob.top_asks(1).first().copied());
    assert_eq!(ob.top_bids(usize::MAX).len(), ob.bid_depth());
    assert_eq!(ob.top_asks(usize::MAX).len(), ob.ask_depth());
}

fn check_instruction(taker: &TestOrder, instruction: &Instruction<TestOrder>) {
    let prims = match instruction {
        Instruction::Single(p) => std::slice::from_ref(p),
        Instruction::Multi(ps) => ps.as_slice(),
    };
    assert!(!prims.is_empty());
    let mut taken = 0u64;
    let mut value = 0u128;
    let mut prices = Vec::new();
    for p in prims {
        if let InstructionPrimitive::Fill(_, _, price, qty, false) = p {
            assert!(*qty > 0);
            taken += qty;
            value += (*price as u128) * (*qty as u128);
            prices.push(*price);
        }
    }
    // maker prices never get better for the taker along the walk
    for pair in prices.windows(2) {
        assert!(if taker.is_buy() { pair[0] <= pair[1] } else { pair[0] >= pair[1] });
    }
    let mut reported = false;
    for (k, p) in prims.iter().enumerate() {
        match p {
            InstructionPrimitive::Fill(id, owner, price, qty, true) => {
                assert_eq!(k, 0);
                assert_eq!((id, owner), (taker.id(), taker.owner()));
                // what the taker took is what the makers gave
                assert_eq!(*qty, taken);
                // the average price, rounded down
                assert!((*price as u128) * (*qty as u128) <= value);
                assert!(value < (*price as u128 + 1) * (*qty as u128));
                reported = true;
            }
            InstructionPrimitive::Insert(order, rest) => {
                assert_eq!(k, prims.len() - 1);
                assert_eq!(order, taker);
                assert_eq!(taken + rest, taker.remaining());
                assert!(taker.tif() != TIF::IOC);
                assert!(*rest > 0 || taker.remaining() == 0);
            }
            _ => {}
        }
    }
    assert_eq!(reported, taken > 0);
    if taker.tif() == TIF::FOK && taken > 0 {
        assert_eq!(taken, taker.remaining());
    }
}

#[test]
fn invariants_hold_through_a_long_run() {
    let mut dice = Dice(7);
    let mut ob = OrderBook::<TestOrder>::default();
    let owners = ["alice", "bob", "carol"];
    for step in 0..3000u64 {
        let op = if dice.roll(4) == 0 {
            Op::Delete(format!("o{}", dice.roll(step + 1)))
        } else {
            let id = if dice.roll(20) == 0 {
                format!("o{}", dice.roll(step + 1))
            } else {
                format!("o{}", step)
            };
            let order = TestOrder::new(&id, dice.roll(2) == 0, 95 + dice.roll(10), dice.roll(50))
                .with_owner(owners[dice.roll(3) as usize])
                .with_tif([TIF::GTC, TIF::GTC, TIF::IOC, TIF::FOK][dice.roll(4) as usize])
                .with_stp(
                    [STP::Off, STP::CancelTaker, STP::CancelMaker, STP::CancelBoth]
                        [dice.roll(4) as usize],
                )
                .with_post_only(dice.roll(8) == 0);
            Op::Insert(order)
        };
        let taker = match &op {
            Op::Insert(order) => Some(order.clone()),
            Op::Delete(_) => None,
        };
        let mut eval = Evaluator::default();
        let instructions = eval.eval(&ob, vec![op]);
        assert_eq!(instructions.len(), 1);
        if let Some(taker) = &taker {
            check_instruction(taker, &instructions[0]);
        }
        let outputs = ob.apply(instructions);
        assert_eq!(outputs.len(), 1);
        check_book(&ob);
    }
    assert!(ob.len() > 0);
}

#[test]
fn quiet_batches_agree_with_one_by_one_through_a_long_run() {
    let mut dice = Dice(11);
    for round in 0..200u64 {
        let build = || {
            let mut ob = OrderBook::<TestOrder>::default();
            let mut dice = Dice(round);
            for k in 0..20u64 {
                let order = TestOrder::new(
                    &format!("m{}", k),
                    false,
                    100 + dice.roll(5),
                    1 + dice.roll(30),
                )
                .with_owner(["alice", "bob"][dice.roll(2) as usize]);
                let qty = order.remaining();
                ob.apply_insert(order, qty);
            }
            ob
        };
        let mut script = Vec::new();
        for k in 0..12u64 {
            if dice.roll(3) == 0 {
                script.push((None, format!("m{}", dice.roll(20))));
            } else {
                let order = TestOrder::new(
                    &format!("t{}", k),
                    true,
                    99 + dice.roll(7),
                    dice.roll(60),
                )
                .with_owner(["alice", "carol"][dice.roll(2) as usize])
                .with_tif([TIF::IOC, TIF::FOK][dice.roll(2) as usize])
                .with_stp(
                    [STP::Off, STP::CancelTaker, STP::CancelMaker, STP::CancelBoth]
                        [dice.roll(4) as usize],
                )
                .with_post_only(dice.roll(8) == 0);
                script.push((Some(order), String::new()));
            }
        }
        let ops = || -> Vec<Op<TestOrder>> {
            script
                .iter()
                .map(|(order, id)| match order {
                    Some(order) => Op::Insert(order.clone()),
                    None => Op::Delete(id.clone()),
                })
                .collect()
        };
        let mut batched = build();
        let mut eval = Evaluator::default();
        let batch = eval.eval(&batched, ops());
        let mut stepped = build();
        let mut one_by_one = Vec::new();
        for op in ops() {
            let mut fresh = Evaluator::default();
            let mut is = fresh.eval(&stepped, vec![op]);
            let i = is.pop().unwrap();
            one_by_one.push(format!("{:?}", i));
            stepped.apply(vec![i]);
            check_book(&stepped);
        }
        let texts: Vec<String> = batch.iter().map(|i| format!("{:?}", i)).collect();
        assert_eq!(texts, one_by_one);
        batched.apply(batch);
        check_book(&batched);
        assert_eq!(batched.top_asks(usize::MAX), stepped.top_asks(usize::MAX));
        assert_eq!(batched.top_bids(usize::MAX), stepped.top_bids(usize::MAX));
        assert_eq!(batched.len(), stepped.len());
    }
}

#[test]
fn batches_that_rest_orders_out_of_reach_agree_with_one_by_one() {
    let mut dice = Dice(23);
    for round in 0..200u64 {
        let build = || {
            let mut ob = OrderBook::<TestOrder>::default();
            let mut dice = Dice(round + 1000);
            for k in 0..10u64 {
                let order =
                    TestOrder::new(&format!("a{}", k), false, 100 + dice.roll(3), 1 + dice.roll(30));
                let qty = order.remaining();
                ob.apply_insert(order, qty);
                let order =
                    TestOrder::new(&format!("b{}", k), true, 97 + dice.roll(3), 1 + dice.roll(30));
                let qty = order.remaining();
                ob.apply_insert(order, qty);
            }
            ob
        };
        let mut script = Vec::new();
        for k in 0..14u64 {
            let id = format!("t{}", k);
            let op = match dice.roll(5) {
                // quotes that rest away from the market
                0 => Op::Insert(TestOrder::new(&id, true, 90 + dice.roll(5), 1 + dice.roll(9))),
                1 => Op::Insert(TestOrder::new(&id, false, 105 + dice.roll(5), 1 + dice.roll(9))),
                // takers that reach into the market, but not as far as the quotes
                2 => Op::Insert(
                    TestOrder::new(&id, true, 99 + dice.roll(6), dice.roll(60)).with_tif(TIF::IOC),
                ),
                3 => Op::Insert(
                    TestOrder::new(&id, false, 95 + dice.roll(6), dice.roll(60)).with_tif(TIF::FOK),
                ),
                _ => Op::Delete(format!("{}{}", ["a", "b"][dice.roll(2) as usize], dice.roll(10))),
            };
            script.push(op);
        }
        let ops = || -> Vec<Op<TestOrder>> {
            script
                .iter()
                .map(|op| match op {
                    Op::Insert(order) => Op::Insert(order.clone()),
                    Op::Delete(id) => Op::Delete(id.clone()),
                })
                .collect()
        };
        let mut batched = build();
        let mut eval = Evaluator::default();
        let batch = eval.eval(&batched, ops());
        let mut stepped = build();
        let mut one_by_one = Vec::new();
        for op in ops() {
            let mut fresh = Evaluator::default();
            let mut is = fresh.eval(&stepped, vec![op]);
            let i = is.pop().unwrap();
            one_by_one.push(format!("{:?}", i));
            stepped.apply(vec![i]);
            check_book(&stepped);
        }
        let texts: Vec<String> = batch.iter().map(|i| format!("{:?}", i)).collect();
        assert_eq!(texts, one_by_one);
        batched.apply(batch);
        check_book(&batched);
        assert_eq!(batched.top_asks(usize::MAX), stepped.top_asks(usize::MAX));
        assert_eq!(batched.top_bids(usize::MAX), stepped.top_bids(usize::MAX));
        assert_eq!(batched.len(), stepped.len());
    }
}

#[test]
fn a_batch_does_not_see_the_orders_it_rests() {
    // one by one the second order takes the first; in a batch both rest
    let ops = || {
        vec![
            Op::Insert(TestOrder::new("b1", true, 1000, 10)),
            Op::Insert(TestOrder::new("s1", false, 1000, 10)),
        ]
    };
    let ob = OrderBook::<TestOrder>::default();
    let mut eval = Evaluator::default();
    let batch = eval.eval(&ob, ops());
    assert!(matches!(&batch[1], Instruction::Single(InstructionPrimitive::Insert(_, 10))));
    let mut stepped = OrderBook::<TestOrder>::default();
    for op in ops() {
        let mut fresh = Evaluator::default();
        let is = fresh.eval(&stepped, vec![op]);
        stepped.apply(is);
    }
    assert!(stepped.is_empty());
}
