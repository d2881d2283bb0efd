//! A registry audit proxy.

pub mod arrangement;
pub mod audit;
pub mod audit_laws;
pub mod body;
pub mod chain_laws;
pub mod codec;
pub mod document_laws;
pub mod json;
pub mod json_laws;
pub mod proxy;
pub mod proxy_laws;
pub mod report;
pub mod report_laws;
pub mod table;
pub mod text;
pub mod tree_laws;
pub mod versions;
pub mod walk_laws;
