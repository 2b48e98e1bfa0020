//! A renderer for synthetic aged, typewritten, redacted documents.
//!
//! The pipeline has two verified stages. The layout engine turns a stream of
//! document blocks (headings, paragraphs with inline redaction markers,
//! stamps) into positioned glyph instances and closed redaction spans. The
//! compositing renderer blends pre-rasterized ink masks onto a textured paper
//! canvas with a multiplicative, darkening-only ink model.
//!
//! All geometry is measured in integer page units; fractional parameters
//! (ink opacity, scale factors) are carried in thousandths.

pub mod cli;
pub mod config;
pub mod fonts;
pub mod layout;
pub mod outside;
pub mod parser;
pub mod raster;
pub mod textspec;
pub mod wrap;

pub use config::Config;
