//! Counting valid and invalid GTIN-13 (EAN-13) barcodes in a CSV stream.
//!
//! [`gtin`] decides whether one candidate string is a well-formed GTIN-13
//! code; [`table`] finds the `ean` column of a CSV header and classifies every
//! following row.
pub mod gtin;
pub mod table;
