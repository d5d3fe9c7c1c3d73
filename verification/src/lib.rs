//! A toolkit for processing LDAP Data Interchange Format streams: a
//! location-tracking push pipeline that strips carriage returns, joins
//! folded lines and lexes LDIF into typed tokens; a streaming base64 codec;
//! an assembler from tokens to attribute/value entries; an LDAP search
//! filter evaluator with a glob substring matcher; writers for LDIF, TSV,
//! CSV and JSON; a distinguished-name escaper; and an entry comparison
//! engine that emits changerecords.

pub mod loc;
pub mod skip;
pub mod crstrip;
pub mod unfold;
pub mod base64;
pub mod lexer;
pub mod entry;
pub mod filter;
pub mod cartesian;
pub mod attrspec;
pub mod tsv;
pub mod csv;
pub mod json;
pub mod escape;
pub mod compare;
