//! Invoice data model, exact decimal totals and the text helpers that the
//! invoice template uses.

pub mod text;
pub mod decimal;
pub mod date;
pub mod invoice;
pub mod helpers;
