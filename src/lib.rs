//! A dynamically typed value (null, boolean, number, string, list, map), its
//! canonical text, and a handle table through which a value can be built and
//! read one node at a time.
pub mod keys;
pub mod number;
pub mod value;
pub mod render;
pub mod equality;
pub mod convert;
pub mod order;
pub mod table;

pub use table::ValueTable;
pub use value::{Value, ValueTy};
