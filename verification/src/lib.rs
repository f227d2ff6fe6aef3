//! Converts parsed XML element trees into JSON-like structured values,
//! with configurable root wrapping and text-key naming, plus a recursive
//! key-renaming utility used to hand the result to an XML re-encoder.

pub mod converter;
pub mod laws;
pub mod parse;
pub mod text;
pub mod value;
pub mod xml;

pub use converter::XmlToJson;
pub use converter::ConfigV;
pub use parse::ParseError;

pub use value::Json;
pub use value::JsonV;
pub use xml::XmlNode;
pub use xml::XmlNodeV;
