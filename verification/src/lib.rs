//! Lossless, deduplicating codec for tree-structured values.
//!
//! A tree of objects, arrays, strings, numbers, booleans and nulls is flattened
//! into a list of tagged strings plus a root key. Every distinct encoded value
//! and every distinct list of property names is stored once and referred to
//! by a radix-62 key.
//!
//! - [`value`]: the tree type and its mathematical model.
//! - [`number`], [`encode`], [`boolean`], [`decimal`]: keys and tagged text.
//! - [`memory`]: the store and the walk that fills it.
//! - [`codec`]: compression, decoding and decompression.
//! - [`schema`]: the text under which a list of names is found again.
//! - [`roundtrip`], [`dedup`], [`depth`], [`refs`], [`unique`]: what holds
//!   of them, proved.
//! - [`helpers`]: removal of null properties.

pub mod boolean;
pub mod config;
pub mod codec;
pub mod decimal;
pub mod dedup;
pub mod depth;
pub mod encode;
pub mod error;
pub mod helpers;
pub mod memory;
pub mod number;
pub mod order;
pub mod refs;
pub mod roundtrip;
pub mod schema;
pub mod text;
pub mod unique;
pub mod value;

pub use boolean::{bool_to_s, s_to_bool};
pub use codec::{compress, compress_with, decode, decompress, set_field, Compressed};
pub use config::Config;
pub use encode::{
    decode_bool, decode_key, decode_num, decode_special, decode_str, encode_bool, encode_num,
    encode_special, encode_str, is_special_value,
};
pub use error::{Error, Special};
pub use helpers::{trim_undefined, trim_undefined_recursively};
pub use memory::{
    add_value, get_schema, get_value_key, make_memory, make_memory_with, mem_to_values, Key, Memory,
};
pub use number::{int_to_s, s_to_int};
pub use value::{Number, Object, Value};
