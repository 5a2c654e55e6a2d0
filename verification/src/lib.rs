//! Core of a limit order book: price-time priority matching with a
//! two-phase evaluate / apply interface.

pub mod batch;
pub mod eval;
pub mod hash;
pub mod level;
pub mod list;
pub mod ob;
pub mod order;
pub mod resting;
pub mod side;
pub mod theorems;

pub use eval::{Evaluator, Instruction, InstructionPrimitive, Msg, Op};
pub use level::Level;
pub use list::{List, Node, Pool, NIL};
pub use ob::{OrderBook, Output, OutputPrimitive};
pub use order::{OrderInterface, TestOrder, STP, TIF};
pub use side::Side;
