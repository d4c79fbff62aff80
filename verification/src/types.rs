//! Interfaces for rule builders that look rules up by category and name.
use vstd::prelude::*;

verus! {

/// Where a rule sits: the index of its category and its index there.
#[derive(Clone, Copy)]
pub struct RuleInfo {
    pub cat_idx: usize,
    pub rule_idx: usize,
}

/// Builds rules, by their place or by their category and name.
pub trait RuleBuilder {
    fn build_rule(&self, rule_info: RuleInfo) -> String;

    fn build_rule_slow(&mut self, cat: String, rule_name: String) -> String;
}

/// Something that can be written out with the help of a rule builder.
pub trait Buildable {
    fn build(&self, rule_builder: &dyn RuleBuilder) -> String;

    fn finalize(&mut self, _fetcher: &dyn InfoFetcher) {
    }
}

/// Finds where a rule sits from its category and name.
pub trait InfoFetcher {
    fn get_rule_info(&self, cat: String, rule_name: String) -> Option<RuleInfo>;
}

} // verus!
