//! A recursive-descent parser for a small indentation-based scripting
//! language, with its behaviour stated in contracts and proved by Verus.
//!
//! The modules are laid out as follows:
//! - `token`: the tokens the parser reads and the source information used in messages;
//! - `error`: the parse errors;
//! - `text`: character classes, integer and float literal syntax, decimal rendering;
//! - `ast`: the syntax tree and its mathematical view;
//! - `model`: the parser as a function on token sequences, which the contracts refer to;
//! - `ends`: where the expression steps leave the parser, whatever their outcome;
//! - `parser`: the executable parser;
//! - `placing`: the source information is read only to place errors;
//! - `prefixes`: without the source text, no error is placed;
//! - `locality`: an expression is read from its own tokens only;
//! - `operands`: an operand is read alike with the rest of its line cut off;
//! - `shape`: calls carry no keyword arguments, definitions no parameters;
//! - `progress`: parse steps never move back, and a program is read to its end;
//! - `grouping`: how names joined by binary operators are grouped;
//! - `syntax_laws`: what member access, calls, definitions, assignments and
//!   operands with calls and members are read as;
//! - `arguments`: a call is read with exactly the arguments between its commas;
//! - `blocks`: the lines that make up the body of a function definition;
//! - `laws`: properties of the parser proved over the model.
pub mod token;
pub mod error;
pub mod text;
pub mod ast;
pub mod model;
pub mod ends;
pub mod parser;
pub mod placing;
pub mod prefixes;
pub mod locality;
pub mod operands;
pub mod shape;
pub mod progress;
pub mod grouping;
pub mod syntax_laws;
pub mod arguments;
pub mod blocks;
pub mod laws;
