//! Sorting slices of integers, and customers by their purchases.

pub mod bubble;
pub mod counting;
pub mod customer;
pub mod order;
pub mod quick;
pub mod quick_in_place;
