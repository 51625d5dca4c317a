//! A structured text document: frames and blocks of plain text kept by an
//! element manager, with the document options that describe its layout.

pub mod options;
pub mod element;
pub mod model;
pub mod orders;
pub mod lines;
pub mod lemmas;
pub mod element_manager;
pub mod laws;
pub mod text_document;
pub mod equality;
