//! Linden Lab Structured Data (LLSD): the value tree, XML-RPC reading and writing,
//! the newline-separated format of wearable assets, and typed access to map entries.

pub mod value;
pub mod text;
pub mod numbers;
pub mod xml_event;
pub mod outside;
pub mod de;
pub mod ser;
pub mod converter;
pub mod laws;

pub use converter::{get, get_nested_vec, get_opt, get_vec, FromLLSDValue};
pub use value::LLSDValue;
