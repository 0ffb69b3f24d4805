//! A converter between shell assignment text — the parenthesized array,
//! `[key]=value` and quoted-string syntax of a shell's variable dump — and a
//! JSON-shaped value tree.
//!
//! `parse` derives a rule-tagged parse tree from the text and reduces it to
//! a [`value::Value`]; `stringify` is the inverse rendering, whose escaping
//! keeps values round-trippable.

pub mod err;
pub mod ser;
pub mod grammar;
pub mod parse;
pub mod props;
pub mod reduce;
pub mod tree;
pub mod value;

pub use err::ParseError;
pub use parse::parse;
pub use value::Number;
pub use value::Value;

use vstd::prelude::*;

verus! {

/// Render a value as shell-assignable text. Total: every value has a
/// rendering, stated exactly by [`ser::ss_value`] over the value's model.
pub fn stringify(value: Value) -> (r: String)
    ensures
        r@ == crate::ser::ss_value(value.view()),
{
    crate::ser::render(&value)
}

} // verus!
