//! Pico runtime: the data structures and string algorithms behind the
//! picohp compiler's native runtime, with their contracts.
//!
//! The library works on plain values: strings are `&str` inputs and byte
//! vectors as outputs, collection slots are 64-bit words, and object or
//! string addresses are carried as integers. The C ABI around it (raw
//! pointers, null-terminated strings, allocation and files) lives in the
//! application crate.

pub mod bytes;
pub mod collection;
pub mod string;
pub mod value;
pub mod runtime;
pub mod compiled_regex;
pub mod regex;
