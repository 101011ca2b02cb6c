//! Marshalling of D-Bus values: the grammar of type signatures, the
//! type of a signature's first value, and the encoding of container values.

pub mod signature;
pub mod value;
pub mod bytes_mut;
pub mod encode;
