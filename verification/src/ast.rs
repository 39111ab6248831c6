//! Abstract syntax of lambda terms, their mathematical model, the laws of
//! the engine, and the rewrite-event type.

pub mod expr;
pub mod laws;
pub mod model;
pub mod names;
pub mod red_type;
