//! An order-tracking core for a food-service counter: a growable array
//! with an explicit capacity policy (`DynamicArray`), customer orders
//! with process-unique ids (`Order`, `IdGen`), and an id-keyed store
//! over them (`OrderList`), with contracts for growth, removal, lookup,
//! sorting, and rendering.

pub mod dynamic_array;
pub mod order;
pub mod order_list;
pub mod text;
