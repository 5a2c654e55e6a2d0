//! Orders: what the book asks of an order type, and a plain order type.

use vstd::prelude::*;

verus! {

/// Time in force for an order.
#[derive(Debug, Clone, Copy, PartialEq, Eq, Structural, Default)]
pub enum TIF {
    /// Good till cancelled; remainder rests on the book.
    #[default]
    GTC,
    /// Fill entire order immediately or cancel (no resting quantity).
    FOK,
    /// Fill as much as possible immediately, cancel the rest (no resting quantity).
    IOC,
}

/// Self-trade protection mode when taker and maker share the same owner.
#[derive(Debug, Clone, Copy, PartialEq, Eq, Structural, Default)]
pub enum STP {
    /// No self-trade protection.
    #[default]
    Off,
    /// Cancel the incoming (taker) order when it would match against same-owner makers.
    CancelTaker,
    /// Cancel the resting (maker) order(s) that would self-trade; taker fills against others.
    CancelMaker,
    /// Cancel both taker and maker(s) involved in the self-trade.
    CancelBoth,
}

/// What the book and the evaluator know of an order.
pub struct OrderView {
    pub id: Seq<char>,
    pub owner: Seq<char>,
    pub is_buy: bool,
    pub price: u64,
    pub quantity: u64,
    pub remaining: u64,
    pub tif: TIF,
    pub stp: STP,
    pub post_only: bool,
}

impl OrderView {
    /// The same order with `qty` taken off its remaining quantity.
    pub open spec fn filled(self, qty: u64) -> OrderView {
        OrderView { remaining: (self.remaining - qty) as u64, ..self }
    }
}

/// The interface an order type offers to the book.
pub trait OrderInterface: Sized {
    /// The order as the book sees it.
    spec fn view(&self) -> OrderView;

    fn id(&self) -> (r: &String)
        ensures
            r@ == self.view().id,
    ;

    fn is_buy(&self) -> (r: bool)
        ensures
            r == self.view().is_buy,
    ;

    fn price(&self) -> (r: u64)
        ensures
            r == self.view().price,
    ;

    /// The quantity the order came with (not updated on fill).
    fn quantity(&self) -> (r: u64)
        ensures
            r == self.view().quantity,
    ;

    /// Remaining quantity (updated on fill).
    fn remaining(&self) -> (r: u64)
        ensures
            r == self.view().remaining,
    ;

    /// Fill the order, updating remaining quantity.
    fn fill(&mut self, quantity: u64)
        requires
            quantity <= old(self).view().remaining,
        ensures
            final(self).view() == old(self).view().filled(quantity),
    ;

    /// Owner id for self-trade protection.
    fn owner(&self) -> (r: &String)
        ensures
            r@ == self.view().owner,
    ;

    /// Time in force: FOK, IOC, or GTC.
    fn tif(&self) -> (r: TIF)
        ensures
            r == self.view().tif,
    ;

    fn stp(&self) -> (r: STP)
        ensures
            r == self.view().stp,
    ;

    /// If true, order must not take; it is rejected if it would cross the spread.
    fn post_only(&self) -> (r: bool)
        ensures
            r == self.view().post_only,
    ;
}

/// A plain order with string identifiers.
#[derive(Debug, PartialEq, Eq, Clone)]
pub struct TestOrder {
    id: String,
    is_buy: bool,
    price: u64,
    quantity: u64,
    remaining: u64,
    tif: TIF,
    stp: STP,
    post_only: bool,
    owner: String,
}

impl TestOrder {
    /// A good-till-cancelled order owned by its own identifier, with all
    /// of its quantity remaining.
    pub fn new(id: &str, is_buy: bool, price: u64, quantity: u64) -> (r: Self)
        ensures
            r.view() == (OrderView {
                id: id@,
                owner: id@,
                is_buy,
                price,
                quantity,
                remaining: quantity,
                tif: TIF::GTC,
                stp: STP::Off,
                post_only: false,
            }),
    {
        Self {
            id: id.to_owned(),
            is_buy,
            price,
            quantity,
            remaining: quantity,
            tif: TIF::GTC,
            stp: STP::Off,
            post_only: false,
            owner: id.to_owned(),
        }
    }

    /// The same order with another time in force.
    pub fn with_tif(self, tif: TIF) -> (r: Self)
        ensures
            r.view() == (OrderView { tif, ..self.view() }),
    {
        let mut order = self;
        order.tif = tif;
        order
    }

    /// The same order, post-only or not.
    pub fn with_post_only(self, post_only: bool) -> (r: Self)
        ensures
            r.view() == (OrderView { post_only, ..self.view() }),
    {
        let mut order = self;
        order.post_only = post_only;
        order
    }

    /// The same order with another self-trade protection mode.
    pub fn with_stp(self, stp: STP) -> (r: Self)
        ensures
            r.view() == (OrderView { stp, ..self.view() }),
    {
        let mut order = self;
        order.stp = stp;
        order
    }

    /// The same order with another owner.
    pub fn with_owner(self, owner: &str) -> (r: Self)
        ensures
            r.view() == (OrderView { owner: owner@, ..self.view() }),
    {
        let mut order = self;
        order.owner = owner.to_owned();
        order
    }
}

impl OrderInterface for TestOrder {
    closed spec fn view(&self) -> OrderView {
        OrderView {
            id: self.id@,
            owner: self.owner@,
            is_buy: self.is_buy,
            price: self.price,
            quantity: self.quantity,
            remaining: self.remaining,
            tif: self.tif,
            stp: self.stp,
            post_only: self.post_only,
        }
    }

    fn id(&self) -> (r: &String) {
        &self.id
    }

    fn is_buy(&self) -> (r: bool) {
        self.is_buy
    }

    fn price(&self) -> (r: u64) {
        self.price
    }

    fn quantity(&self) -> (r: u64) {
        self.quantity
    }

    fn remaining(&self) -> (r: u64) {
        self.remaining
    }

    fn fill(&mut self, quantity: u64) {
        self.remaining = self.remaining - quantity;
    }

    fn owner(&self) -> (r: &String) {
        &self.owner
    }

    fn tif(&self) -> (r: TIF) {
        self.tif
    }

    fn stp(&self) -> (r: STP) {
        self.stp
    }

    fn post_only(&self) -> (r: bool) {
        self.post_only
    }
}

} // verus!
