pub mod key;
pub mod table;
pub mod hashmap;
pub mod hashset;
