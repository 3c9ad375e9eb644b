//! A bounded breadth-first crawler of one site at a time, harvesting the PDF
//! documents that it meets, with every decision verified.
pub mod crawl;
pub mod crawl_laws;
pub mod links;
pub mod targets;
pub mod url_set;
pub mod url_text;
