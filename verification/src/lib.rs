//! Dependency and advisory context for AI coding tools.
//!
//! `document` decodes JSON and TOML text into plain trees, `deps` reads
//! dependency files (lockfiles and manifests) into packages, `osv` models
//! advisories, reads OSV.dev replies and collapses duplicates, `cvss` reads
//! CVSS vectors, `scan` renders the reports, and `mcp` reads the tool
//! server's messages and decides how each is answered.

pub mod cvss;
pub mod deps;
pub mod document;
pub mod mcp;
pub mod order;
pub mod osv;
pub mod scan;
pub mod text;
