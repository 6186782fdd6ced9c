//! A verified parser for a small HTML subset: a character-level tokenizer,
//! a tree builder over an arena of nodes with identifier and class
//! indices, and a serializer that renders the tag nesting back to a
//! bracketed string.
pub mod dom;
pub mod parser;
