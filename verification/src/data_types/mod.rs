pub mod data_types;
pub mod integer;
pub mod string;
pub mod table;
pub mod format;
pub mod roundtrip;
