pub mod describe;
pub mod fields;
pub mod generate;
pub mod laws;
pub mod item_laws;
pub mod lengths;
pub mod random;
pub mod resolve;
pub mod rulemap;
pub mod rules;
pub mod text;
pub mod types;

use vstd::prelude::*;
use crate::fields::Item;

verus! {

/// A rule written out as its name and the values it may produce.
pub struct Rule<'a> {
    pub name: &'a str,
    pub value: Vec<Item>,
}

} // verus!
