//! A decoder for Java class files.
//!
//! A class file is a length-prefixed, tag-dispatched binary container:
//! a header, a constant pool, and lists of interfaces, fields, methods and
//! attributes, where the form of an attribute depends on a name that is
//! looked up in the constant pool. [`decode`] turns a byte buffer into a
//! [`ClassFile`] in one pass, and fails with a [`DecodeError`] on the first
//! byte that does not fit.
//!
//! The format is described twice, as mathematical functions on sequences
//! of bytes: the `parse_*` functions say what is read from a sequence, and
//! the `encode_*` functions of [`encoding`] say which bytes a structure
//! stands for. Every decoding function is proved to return exactly what the
//! `parse_*` functions assign to its input, and the two descriptions are
//! proved to agree: decoding gives a class file exactly where the class
//! file is valid and the input starts with its encoding (see [`complete`]
//! and [`lossless`]). Each module states further what follows for its part
//! of the format, such as that an input cut off before the end of its
//! class file is refused as ending unexpectedly (see [`class_file`]).

pub mod attribute;
pub mod bytes;
pub mod class_file;
pub mod complete;
pub mod constant_pool;
pub mod encoding;
pub mod error;
pub mod lossless;
pub mod member;
pub mod model;

pub use crate::attribute::{
    decode_attribute, decode_attributes, AttributeInfo, ExceptionTable, MAX_CODE_NESTING,
};
pub use crate::bytes::ByteCursor;
pub use crate::class_file::{decode, ClassFile, MAGIC};
pub use crate::constant_pool::{decode_constant_pool, decode_entry, lookup, CpInfo, Info};
pub use crate::error::DecodeError;
pub use crate::member::{decode_member, decode_members, FieldsInfo, MemberInfo, MethodInfo};
