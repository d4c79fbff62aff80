use std::str;

use regex::Regex;

use resmack::fields::{pre_id_bytes, And, Id, Item, Or, PreId, Ref, Scoped};
use resmack::random::Rand;
use resmack::rules::{RuleList, RuleSet};

fn pre_id_marker() -> Vec<u8> {
    pre_id_bytes()
}

#[test]
fn test_rule_set() {
    let mut rules = RuleSet::new();
    let rules = rules.add_rule("rule", And::new("").add_item("hello").add_item("there"));
    rules.finalize();

    assert_eq!(rules.rules.rules.len(), 1);

    let rule = rules.get_ref_idx("rule");
    assert_eq!(rule.is_some(), true);
}

#[test]
fn test_rule_build() {
    let mut rules = RuleSet::new();
    let rules = rules
        .add_rule("rule", And::new("").add_item("hello").add_item("there"))
        .add_rule(
            "rule2",
            And::new("").add_item("oogah").add_item(Ref::new("rule")).add_item("boogah"),
        );
    let mut rand = Rand::new(0);
    rules.finalize();

    let mut output: Vec<u8> = Vec::new();
    rules
        .build_rule_slow("rule2", &mut output, &mut rand, 10, true)
        .unwrap();
    assert_eq!(str::from_utf8(&output[..]).unwrap(), "oogahhellothereboogah");
}

#[test]
fn test_auto_prune_normal() {
    let mut rules = RuleSet::new();
    let rules = rules
        .add_rule("prune_me", Ref::new("unresolvable"))
        .add_rule("prune_me2", Ref::new("prune_me"))
        .add_rule("prune_me3", Ref::new("prune_me2"))
        .add_rule("rule", "a valid rule")
        .add_rule(
            "rule2",
            And::new("").add_item("oogah").add_item(Ref::new("rule")).add_item("boogah"),
        );
    rules.finalize();

    assert_eq!(rules.rule_map.len(), 2);
    assert_eq!(rules.rule_map.contains_key("rule"), true);
    assert_eq!(rules.rule_map.contains_key("rule2"), true);
    assert_eq!(rules.rule_map.contains_key("prune_me"), false);
    assert_eq!(rules.rule_map.contains_key("prune_me2"), false);
    assert_eq!(rules.rule_map.contains_key("prune_me3"), false);
}

#[test]
fn test_auto_prune_circular() {
    let mut or_rule = Or::new();
    or_rule.add_item(Ref::new("prune_me2"));
    or_rule.add_item("a valid rule");
    let mut rules = RuleSet::new();
    let rules = rules
        .add_rule("prune_me2", Ref::new("prune_me3"))
        .add_rule("prune_me3", Ref::new("prune_me2"))
        .add_rule("rule", or_rule)
        .add_rule(
            "rule2",
            And::new("").add_item("oogah").add_item(Ref::new("rule")).add_item("boogah"),
        );
    rules.finalize();

    assert_eq!(rules.rule_map.len(), 2);
    assert_eq!(rules.rule_map.contains_key("rule"), true);
    assert_eq!(rules.rule_map.contains_key("rule2"), true);
    assert_eq!(rules.rule_map.contains_key("prune_me2"), false);
    assert_eq!(rules.rule_map.contains_key("prune_me3"), false);
}

#[test]
fn test_auto_prune_circular_or() {
    let mut or2 = Or::new();
    or2.add_item(Ref::new("prune_me3"));
    let mut or3 = Or::new();
    or3.add_item(Ref::new("prune_me2"));
    let mut or_rule = Or::new();
    or_rule.add_item(Ref::new("prune_me2"));
    or_rule.add_item("a valid rule");
    let mut rules = RuleSet::new();
    let rules = rules
        .add_rule("prune_me2", or2)
        .add_rule("prune_me3", or3)
        .add_rule("rule", or_rule)
        .add_rule(
            "rule2",
            And::new("").add_item("oogah").add_item(Ref::new("rule")).add_item("boogah"),
        );
    rules.finalize();

    assert_eq!(rules.rule_map.len(), 2);
    assert_eq!(rules.rule_map.contains_key("rule"), true);
    assert_eq!(rules.rule_map.contains_key("rule2"), true);
    assert_eq!(rules.rule_map.contains_key("prune_me2"), false);
    assert_eq!(rules.rule_map.contains_key("prune_me3"), false);
}

fn short_or(next: &str) -> Or {
    let mut or = Or::new();
    or.add_item("short");
    or.add_item(Ref::new(next));
    or
}

#[test]
fn test_ref_length() {
    let mut rules = RuleSet::new();
    let rules = rules
        .add_rule("rule", And::new("").add_item("rule").add_item(Ref::new("rule1")))
        .add_rule("rule1", And::new("").add_item("rule1").add_item(short_or("rule2")))
        .add_rule("rule2", And::new("").add_item("rule2").add_item(short_or("rule3")))
        .add_rule("rule3", And::new("").add_item("rule3").add_item(short_or("rule1")));
    rules.finalize();

    assert_eq!(rules.rule_map.len(), 4);

    let ref_idx = rules.get_ref_idx("rule").unwrap();
    let mut rand = Rand::new(11111);

    let mut max_recursion = 1;
    for _ in 0..100 {
        let mut output: Vec<u8> = Vec::new();
        rules
            .build_rule(ref_idx, &mut output, &mut rand, max_recursion, true)
            .unwrap();
        let res = std::str::from_utf8(&output).unwrap();
        assert_ne!(res, "rulerule");
    }

    max_recursion = 1;
    for _ in 0..100 {
        let mut output: Vec<u8> = Vec::new();
        rules
            .build_rule(ref_idx, &mut output, &mut rand, max_recursion, true)
            .unwrap();
        let res = std::str::from_utf8(&output).unwrap();
        assert_eq!(["rulerule1short"].contains(&res), true);
    }

    max_recursion = 2;
    for _ in 0..100 {
        let mut output: Vec<u8> = Vec::new();
        rules
            .build_rule(ref_idx, &mut output, &mut rand, max_recursion, true)
            .unwrap();
        let res = std::str::from_utf8(&output).unwrap();
        assert_eq!(["rulerule1short", "rulerule1rule2short"].contains(&res), true);
    }

    max_recursion = 3;
    for _ in 0..100 {
        let mut output: Vec<u8> = Vec::new();
        rules
            .build_rule(ref_idx, &mut output, &mut rand, max_recursion, true)
            .unwrap();
        let res = std::str::from_utf8(&output).unwrap();
        assert_eq!(
            ["rulerule1short", "rulerule1rule2short", "rulerule1rule2rule3short"].contains(&res),
            true
        );
    }

    max_recursion = 4;
    for _ in 0..100 {
        let mut output: Vec<u8> = Vec::new();
        rules
            .build_rule(ref_idx, &mut output, &mut rand, max_recursion, true)
            .unwrap();
        let res = std::str::from_utf8(&output).unwrap();
        assert_eq!(
            [
                "rulerule1short",
                "rulerule1rule2short",
                "rulerule1rule2rule3short",
                "rulerule1rule2rule3rule1short"
            ]
            .contains(&res),
            true
        );
    }
}

#[test]
fn test_id() {
    let mut rules = RuleSet::new();
    let rules = rules.add_rule("gen_id", And::new("").add_item("test").add_item(Id::new("new_rule")));
    rules.finalize();

    assert_eq!(rules.rule_map.len(), 2);
    assert_eq!(rules.rule_map.contains_key("gen_id"), true);
    assert_eq!(rules.rule_map.contains_key("new_rule"), true);
    assert_eq!(rules.rules.rules[1].choices.len(), 0);
}

fn var_rules(rules: &mut RuleSet) -> &mut RuleSet {
    rules
        .add_rule(
            "var_10",
            PreId::new("10", "")
                .add_item("var ")
                .add_item(pre_id_marker().as_slice())
                .add_item(" = 10; "),
        )
        .add_rule(
            "var_20",
            PreId::new("20", "")
                .add_item("var ")
                .add_item(pre_id_marker().as_slice())
                .add_item(" = ")
                .add_item(Ref::new("var_10"))
                .add_item(" + 10; "),
        )
}

#[test]
fn test_pre_id() {
    let mut rules = RuleSet::new();
    let rules = var_rules(&mut rules)
        .add_rule("plus_eq_two", And::new("").add_item(Ref::new("var_20")).add_item(" += 2;"));
    rules.finalize();

    let get_id = |rules: &RuleSet, rule_name: &str| -> String {
        let idx = rules.rule_map.get(rule_name).unwrap();
        match &rules.rules.rules[idx].choices[0] {
            Item::Direct(v) => str::from_utf8(&v).unwrap().to_string(),
            _ => panic!("Id {:?} did not exist", rule_name),
        }
    };

    let mut output: Vec<u8> = Vec::new();
    let mut rand: Rand = Rand::new(100);
    rules
        .build_rule_slow("plus_eq_two", &mut output, &mut rand, 10, true)
        .unwrap();
    let output = str::from_utf8(&output).unwrap();
    assert_eq!(
        output,
        format!(
            "var {var10} = 10; var {var20} = {var10} + 10; {var20} += 2;",
            var10 = get_id(rules, "10"),
            var20 = get_id(rules, "20"),
        )
    );
}

#[test]
fn test_pre_flush() {
    let mut rules = RuleSet::new();
    let rules = var_rules(&mut rules)
        .add_rule(
            "plus_eq_two",
            And::new("")
                .add_item(Item::PreFlush)
                .add_item(Ref::new("var_20"))
                .add_item(" += 2;")
                .add_item(Item::PreFlush),
        )
        .add_rule(
            "two_plus_twos",
            And::new("")
                .add_item(Ref::new("plus_eq_two"))
                .add_item("\n")
                .add_item(Ref::new("plus_eq_two")),
        );
    rules.finalize();

    let mut output: Vec<u8> = Vec::new();
    let mut rand: Rand = Rand::new(100);
    rules
        .build_rule_slow("two_plus_twos", &mut output, &mut rand, 10, true)
        .unwrap();
    let output = str::from_utf8(&output).unwrap();
    println!("output: \n\n{}", output);
    let reg =
        Regex::new(r"(var [a-z]+ = 10; var [a-z]+ = [a-z]+ \+ 10; [a-z]+ \+= 2;\n?){2,2}").unwrap();
    assert_eq!(reg.is_match(output), true);
}

#[test]
fn test_rule_list() {
    let mut rules = RuleSet::new();
    let rules = rules.add_rule("in_parent", And::new("").add_item("hello").add_item("world"));
    rules.finalize();

    let parent = std::mem::replace(&mut rules.rules, RuleList::new());
    let sub_rules = RuleList::new_from_parent(Some(parent));
    rules.rules = sub_rules;
    let mut output: Vec<u8> = Vec::new();
    let mut rand: Rand = Rand::new(100);
    rules
        .build_rule_slow("in_parent", &mut output, &mut rand, 10, true)
        .unwrap();

    assert_eq!(str::from_utf8(&output).unwrap(), "helloworld");
}

#[test]
fn test_scoped() {
    let mut rules = RuleSet::new();
    let rules = rules
        .add_rule(
            "define_variable",
            And::new("").add_item("var ").add_item(Id::new("varname")).add_item(" = 10;"),
        )
        .add_rule(
            "statements",
            And::new("\n")
                .add_item(Ref::new("define_variable"))
                .add_item(And::new("").add_item(Ref::new("varname")).add_item(" += 20")),
        )
        .add_rule(
            "function",
            And::new("\n")
                .add_item("(function(){")
                .add_item(Scoped::new(Ref::new("statements")))
                .add_item("})()"),
        )
        .add_rule(
            "both",
            And::new("\n\n").add_item(Ref::new("statements")).add_item(Ref::new("function")),
        );
    rules.finalize();

    let mut output: Vec<u8> = Vec::new();
    let mut rand: Rand = Rand::new(102);
    rules
        .build_rule_slow("both", &mut output, &mut rand, 10, true)
        .unwrap();
    let varname_idx: usize = rules.get_ref_idx("define_variable").unwrap();

    assert_eq!(rules.rules.rules.get(varname_idx).unwrap().choices.len(), 1);
}
