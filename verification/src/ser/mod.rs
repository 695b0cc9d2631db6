pub mod xml;
pub mod xml_rpc;
pub mod layout;
