//! Generates GLL parsers in Rust from grammars.
//!
//! A grammar is a list of rules with names ([`generate::Grammar`]). The parser for it
//! ([`generate::generate`]) is source code ([`tokens::Src`]) that declares a type for each rule,
//! functions that read values of these types from a parse forest, and the code that fills the
//! forest.
//!
//! - [`text`], [`tokens`], [`pattern`], [`rule`], [`node`] and [`label`] hold what the generator
//!   works on.
//! - [`fields`] and [`types`] look at the named places in rules, [`table`] and [`closure`] at the
//!   rules that parse forests have nodes for, and [`traverse`] at the way through a forest.
//! - [`instr`], [`continuation`], [`thunk`] and [`parse`] generate the code of rules, from its end
//!   to its start.
//! - [`declare`], [`debug`], [`forest`] and [`reflect`] write the declarations, and [`generate`]
//!   puts all of it together.
//! - [`balance`], [`account`], [`mentions`], [`hereditary`], [`labels`], [`nodes`], [`declared`]
//!   and [`paths`] state and prove what holds of the generated code as a whole.
//! - [`language`], [`machine`], [`running`] and [`meaning`] say what input rules stand for, and
//!   that the generated code takes exactly that input; [`noting`], [`shapes`] and [`numbering`],
//!   which nodes it notes and how these are made of others; [`functions`], where it goes on.
//! - [`values`], [`printing`], [`naming`], [`refusal`], [`wording`] and [`written`] say what the
//!   declarations around the code mean: types, names, descriptions, and what stands where.
//! - [`maps`] says what the maps and sets of `indexmap` hold.

pub mod account;
pub mod balance;
pub mod closure;
pub mod continuation;
pub mod debug;
pub mod declare;
pub mod declared;
pub mod fields;
pub mod forest;
pub mod functions;
pub mod generate;
pub mod hereditary;
pub mod instr;
pub mod label;
pub mod labels;
pub mod language;
pub mod machine;
pub mod maps;
pub mod meaning;
pub mod mentions;
pub mod naming;
pub mod node;
pub mod nodes;
pub mod noting;
pub mod numbering;
pub mod parse;
pub mod paths;
pub mod pattern;
pub mod printing;
pub mod reflect;
pub mod refusal;
pub mod rule;
pub mod running;
pub mod shapes;
pub mod table;
pub mod text;
pub mod thunk;
pub mod tokens;
pub mod traverse;
pub mod types;
pub mod values;
pub mod wording;
pub mod written;
