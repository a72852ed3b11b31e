//! A configuration-language engine: a document tree, a parser for the
//! human-friendly configuration syntax, emitters for several wire formats and
//! a schema validator.
//!
//! - `object`: the tree, its typed readings, keyed and path lookup, cursors.
//! - `parser` with `scalar` and `vars`: text to tree, with a grammar that the
//!   parser is proved to follow.
//! - `emitter` and `msgpack`: tree to configuration syntax, JSON, compact
//!   JSON, YAML and MessagePack.
//! - `schema`: validation of a tree against a schema tree.
//! - `group`: a repeated key's implicit array made explicit, as JSON, YAML
//!   and MessagePack write it.
//! - `roundtrip`: reading back what the emitters write.

pub mod error;
pub mod text;
pub mod object;
pub mod emitter;
pub mod schema;
pub mod scalar;
pub mod vars;
pub mod parser;
pub mod builder;
pub mod msgpack;
pub mod roundtrip;
pub mod group;

pub use builder::Builder;
pub use emitter::Emitter;
pub use error::{UclError, UclErrorType, UclSchemaError, UclSchemaErrorType};
pub use object::{Decimal, Object, Type};
pub use parser::{Flags, Parser};
pub use msgpack::{decimals, msgpack};
