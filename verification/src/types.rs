//! Domain primitives for advanced users and SDK implementors.

pub use crate::contract::{ContractData, FieldMap};
pub use crate::data_type::{
    DataType, NESTED_KIND_ARRAY, NESTED_KIND_OBJECT, TYPE_BOOL, TYPE_BYTES, TYPE_FLOAT,
    TYPE_FLOAT32, TYPE_INT, TYPE_NESTED, TYPE_NULL, TYPE_STRING,
};
