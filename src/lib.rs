//! Fair-rotation pairing: splits a roster of participants into pairs (and at
//! most one trailing trio) each round, preferring partners who have met least,
//! with the round's opener going round the roster in name order.

pub mod member;
pub mod announce;
pub mod names;
pub mod picker;
