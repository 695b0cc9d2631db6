pub mod newline;
pub mod xml_rpc;
