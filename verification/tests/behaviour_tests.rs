use resmack::fields::{And, Convertible, Id, Int, Item, Mul, Or, Ref, Scoped, Str};
use resmack::generate::{BuildError, ItemBuilder};
use resmack::lengths::RefLenCalculator;
use resmack::random::Rand;
use resmack::rulemap::RuleMap;
use resmack::rules::{RuleList, RuleSet};

fn build_seeded(item: Item, seed: u128) -> Result<String, BuildError> {
    let mut rand = Rand::new(seed);
    let mut builder = ItemBuilder::new(RuleList::new(), 10);
    let mut pre: Vec<u8> = Vec::new();
    let mut out: Vec<u8> = Vec::new();
    builder.build(&item, &mut pre, &mut out, &mut rand)?;
    pre.extend(&out);
    Ok(String::from_utf8(pre).unwrap())
}

#[test]
fn and_of_directs_joins_parts() {
    let item: Item = And::new(", ").add_item("a").add_item("b").add_item("c").convert();
    assert_eq!(build_seeded(item, 1).unwrap(), "a, b, c");
}

#[test]
fn repeat_of_direct_repeats_it() {
    for seed in 0..50 {
        let res = build_seeded(Mul::new("ab", 2, 5).convert(), seed).unwrap();
        let n = res.len() / 2;
        assert!(2 <= n && n < 5);
        assert_eq!(res, "ab".repeat(n));
    }
    assert_eq!(build_seeded(Mul::new("ab", 3, 3).convert(), 7).unwrap(), "ababab");
}

#[test]
fn random_string_stays_in_range_and_charset() {
    for seed in 0..50 {
        let res = build_seeded(Str::new(2, 6, "xyz").convert(), seed).unwrap();
        assert!(2 <= res.len() && res.len() <= 6);
        assert!(res.chars().all(|c| "xyz".contains(c)));
    }
    let lengths: Vec<usize> = (0..200).map(|seed| build_seeded(Str::new(0, 2, "x").convert(), seed).unwrap().len()).collect();
    assert!(lengths.contains(&2));
}

#[test]
fn string_of_fixed_length() {
    assert_eq!(build_seeded(Str::new(1, 1, "a").convert(), 3).unwrap(), "a");
    assert_eq!(build_seeded(Str::new(3, 3, "b").convert(), 1).unwrap(), "bbb");
}

#[test]
fn random_integer_stays_in_range() {
    for seed in 0..50 {
        let res = build_seeded(Int::new(-5, 5).convert(), seed).unwrap();
        let v: i64 = res.parse().unwrap();
        assert!(-5 <= v && v < 5);
    }
}

#[test]
fn same_seed_same_output() {
    let item = || -> Item { And::new("-").add_item(Str::new(1, 9, "abc")).add_item(Int::new(0, 100)).convert() };
    assert_eq!(build_seeded(item(), 42).unwrap(), build_seeded(item(), 42).unwrap());
}

#[test]
fn empty_ranges_are_malformed() {
    assert_eq!(build_seeded(Int::new(5, 5).convert(), 1), Err(BuildError::Malformed));
    assert_eq!(build_seeded(Or::new().convert(), 1), Err(BuildError::Malformed));
}

#[test]
fn unresolved_reference_is_an_error() {
    assert_eq!(build_seeded(Ref::new("nowhere").convert(), 1), Err(BuildError::Unresolved));
    assert_eq!(build_seeded(Id::new("nowhere").convert(), 1), Err(BuildError::Unresolved));
}

#[test]
fn rule_without_options_cannot_be_built() {
    let mut rules = RuleSet::new();
    let rules = rules.add_rule("gen_id", And::new("").add_item("x").add_item(Id::new("ids")));
    assert_eq!(rules.finalize(), true);
    let ids = rules.get_ref_idx("ids").unwrap();
    let mut rand = Rand::new(3);
    let mut output: Vec<u8> = Vec::new();
    assert_eq!(
        rules.build_rule(ids, &mut output, &mut rand, 10, true),
        Err(BuildError::NoOptions(ids))
    );
}

#[test]
fn identifier_is_written_and_kept() {
    let mut rules = RuleSet::new();
    let rules = rules.add_rule("gen_id", And::new("").add_item("id=").add_item(Id::new("ids")));
    assert_eq!(rules.finalize(), true);
    let gen_id = rules.get_ref_idx("gen_id").unwrap();
    let ids = rules.get_ref_idx("ids").unwrap();
    let mut rand = Rand::new(5);
    let mut output: Vec<u8> = Vec::new();
    rules.build_rule(gen_id, &mut output, &mut rand, 10, true).unwrap();
    let text = String::from_utf8(output).unwrap();
    let id = text.strip_prefix("id=").unwrap();
    assert!(10 <= id.len() && id.len() < 20);
    assert!(id.chars().all(|c| c.is_ascii_lowercase()));
    assert_eq!(rules.rules.rules[ids].choices.len(), 1);
    match &rules.rules.rules[ids].choices[0] {
        Item::Direct(v) => assert_eq!(v.as_slice(), id.as_bytes()),
        _ => panic!("the identifier is not a fixed string"),
    }
    let mut output: Vec<u8> = Vec::new();
    rules.build_rule(ids, &mut output, &mut rand, 10, true).unwrap();
    assert_eq!(output.as_slice(), id.as_bytes());
}

#[test]
fn identifiers_are_dropped_without_keep() {
    let mut rules = RuleSet::new();
    let rules = rules.add_rule("gen_id", And::new("").add_item("id=").add_item(Id::new("ids")));
    rules.finalize();
    let gen_id = rules.get_ref_idx("gen_id").unwrap();
    let ids = rules.get_ref_idx("ids").unwrap();
    let mut rand = Rand::new(5);
    for _ in 0..5 {
        let mut output: Vec<u8> = Vec::new();
        rules.build_rule(gen_id, &mut output, &mut rand, 10, false).unwrap();
    }
    assert_eq!(rules.rules.rules[ids].choices.len(), 0);
}

#[test]
fn scoped_identifiers_are_dropped() {
    let mut rules = RuleSet::new();
    let rules = rules.add_rule(
        "scoped",
        Scoped::new(And::new("").add_item(Id::new("ids")).add_item(" ").add_item(Ref::new("ids"))),
    );
    rules.finalize();
    let scoped = rules.get_ref_idx("scoped").unwrap();
    let ids = rules.get_ref_idx("ids").unwrap();
    let mut rand = Rand::new(9);
    let mut output: Vec<u8> = Vec::new();
    rules.build_rule(scoped, &mut output, &mut rand, 10, true).unwrap();
    let text = String::from_utf8(output).unwrap();
    let parts: Vec<&str> = text.split(' ').collect();
    assert_eq!(parts.len(), 2);
    assert_eq!(parts[0], parts[1]);
    assert_eq!(rules.rules.rules[ids].choices.len(), 0);
}

#[test]
fn finalize_stops_when_rounds_repeat() {
    let mut rules = RuleSet::new();
    let rules = rules
        .add_rule("x", Ref::new("missing"))
        .add_rule("y", Id::new("x"));
    assert_eq!(rules.finalize(), false);
    assert_eq!(rules.rule_map.contains_key("y"), true);
    assert_eq!(rules.rule_map.contains_key("x"), false);
}

#[test]
fn finalize_keeps_only_buildable_rules() {
    let mut choice = Or::new();
    choice.add_item(Ref::new("missing"));
    choice.add_item("fine");
    let mut rules = RuleSet::new();
    let rules = rules
        .add_rule("a", choice)
        .add_rule("b", And::new("").add_item(Ref::new("a")).add_item(Ref::new("c")))
        .add_rule("c", Ref::new("b"));
    assert_eq!(rules.finalize(), true);
    assert_eq!(rules.rule_map.len(), 1);
    let a = rules.get_ref_idx("a").unwrap();
    assert_eq!(rules.rules.rules[a].choice_indices, vec![0]);
    match &rules.rules.rules[a].choices[0] {
        Item::Or(inner) => assert_eq!(inner.choice_indices, vec![1]),
        _ => panic!("the rule's option is not a choice"),
    }
    let mut rand = Rand::new(1);
    let mut output: Vec<u8> = Vec::new();
    rules.build_rule(a, &mut output, &mut rand, 10, true).unwrap();
    assert_eq!(output, b"fine".to_vec());
}

#[test]
fn shortest_options_are_computed() {
    let mut deep = Or::new();
    deep.add_item(Ref::new("leaf"));
    deep.add_item(And::new("").add_item(Ref::new("leaf")).add_item(Ref::new("node")));
    let mut rules = RuleSet::new();
    let rules = rules.add_rule("leaf", "l").add_rule("node", deep);
    assert_eq!(rules.finalize(), true);
    let node = rules.get_ref_idx("node").unwrap();
    assert_eq!(rules.rules.rules[node].shortest_options, vec![0]);
    match &rules.rules.rules[node].choices[0] {
        Item::Or(inner) => assert_eq!(inner.shortest_options, vec![0]),
        _ => panic!("the rule's option is not a choice"),
    }
}

#[test]
fn rule_map_reads_back_writes() {
    let mut map = RuleMap::new();
    map.insert("b".to_string(), 2);
    map.insert("a".to_string(), 1);
    map.insert("c".to_string(), 3);
    assert_eq!(map.get("a"), Some(1));
    assert_eq!(map.get("b"), Some(2));
    assert_eq!(map.get("d"), None);
    map.insert("b".to_string(), 7);
    assert_eq!(map.get("b"), Some(7));
    assert_eq!(map.len(), 3);
    assert_eq!(map.remove("a"), true);
    assert_eq!(map.remove("a"), false);
    assert_eq!(map.contains_key("a"), false);
    assert_eq!(map.len(), 2);
    let (first, idx) = map.entry(0);
    assert_eq!((first.as_str(), idx), ("b", 7));
}

#[test]
fn random_values_stay_in_range() {
    let mut rand = Rand::new(77);
    for _ in 0..100 {
        let u = rand.rand_u64(10, 20);
        assert!(10 <= u && u < 20);
        let i = rand.rand_i64(-3, 3);
        assert!(-3 <= i && i < 3);
        let s = rand.rand_usize(0, 2);
        assert!(s < 2);
    }
}

#[test]
fn conversions_give_fixed_strings() {
    let cases: Vec<(Item, &[u8])> = vec![
        (String::from("hé").convert(), "hé".as_bytes()),
        ("text".convert(), b"text"),
        ((&b"\x00\xff"[..]).convert(), b"\x00\xff"),
        (1234usize.convert(), b"1234"),
        ((-56i32).convert(), b"-56"),
    ];
    for (item, bytes) in cases {
        match item {
            Item::Direct(v) => assert_eq!(v.as_slice(), bytes),
            _ => panic!("not a fixed string"),
        }
    }
}

#[test]
fn resolving_keeps_rules_that_reach_each_other() {
    let mut a = Or::new();
    a.add_item(Ref::new("b"));
    a.add_item("x");
    let mut rules = RuleSet::new();
    let rules = rules
        .add_rule("a", a)
        .add_rule("b", Ref::new("a"))
        .add_rule("c", Ref::new("gone"))
        .add_rule("d", And::new("").add_item(Ref::new("c")).add_item(Ref::new("a")));
    assert_eq!(rules.resolve_reachability(), 2);
    assert_eq!(rules.rule_map.contains_key("a"), true);
    assert_eq!(rules.rule_map.contains_key("b"), true);
    assert_eq!(rules.rule_map.contains_key("c"), false);
    assert_eq!(rules.rule_map.contains_key("d"), false);
}

#[test]
fn rules_that_never_end_are_pruned() {
    let mut list = Or::new();
    list.add_item(Ref::new("item"));
    list.add_item(And::new("").add_item(Ref::new("item")).add_item(Ref::new("list")));
    let mut rules = RuleSet::new();
    let rules = rules
        .add_rule("endless", And::new("").add_item("x").add_item(Ref::new("endless")))
        .add_rule("item", "i")
        .add_rule("list", list);
    assert_eq!(rules.finalize(), true);
    assert_eq!(rules.get_ref_idx("endless"), None);
    let idx = rules.get_ref_idx("list").unwrap();
    assert!(rules.get_ref_idx("item").is_some());
    for seed in 0..20 {
        let mut rand = Rand::new(seed);
        let mut output: Vec<u8> = Vec::new();
        rules.build_rule(idx, &mut output, &mut rand, 3, true).unwrap();
        assert!(!output.is_empty());
        assert!(output.iter().all(|b| *b == b'i'));
    }
}

#[test]
fn resolving_counts_removed_names() {
    let mut rules = RuleSet::new();
    let rules = rules
        .add_rule("prune_me", Ref::new("unresolvable"))
        .add_rule("prune_me2", Ref::new("prune_me"))
        .add_rule("prune_me3", Ref::new("prune_me2"))
        .add_rule("rule", "a valid rule")
        .add_rule("rule2", And::new("").add_item("oogah").add_item(Ref::new("rule")).add_item("boogah"));
    assert_eq!(rules.resolve_reachability(), 3);
    assert_eq!(rules.rule_map.len(), 2);
    assert!(rules.get_ref_idx("rule").is_some());
    assert!(rules.get_ref_idx("rule2").is_some());
    assert_eq!(rules.rules.rules.len(), 5);
    assert_eq!(rules.rule_map_inv.len(), 5);
}

#[test]
fn resolving_adds_identifier_rules() {
    let mut rules = RuleSet::new();
    let rules = rules.add_rule("make", And::new("").add_item("var ").add_item(Id::new("variable")));
    assert_eq!(rules.resolve_reachability(), 0);
    let idx = rules.get_ref_idx("variable").unwrap();
    assert_eq!(idx, 1);
    assert!(rules.rules.rules[idx].keep);
    assert!(rules.rules.rules[idx].choices.is_empty());
}

#[test]
fn plain_rules_survive_with_shortest_options() {
    let mut rules = RuleSet::new();
    let rules = rules
        .add_rule("a", Ref::new("b"))
        .add_rule("b", "x")
        .add_rule("z", Ref::new("missing"));
    assert_eq!(rules.finalize(), true);
    let b = rules.get_ref_idx("b").unwrap();
    assert_eq!(rules.rules.rules[b].shortest_options, vec![0]);
}

#[test]
fn length_pass_counts_removed_names() {
    let mut choice = Or::new();
    choice.add_item(Ref::new("prune_me2"));
    choice.add_item("a valid rule");
    let mut rules = RuleSet::new();
    let rules = rules
        .add_rule("prune_me2", Ref::new("prune_me3"))
        .add_rule("prune_me3", Ref::new("prune_me2"))
        .add_rule("rule", choice)
        .add_rule("rule2", And::new("").add_item("oogah").add_item(Ref::new("rule")).add_item("boogah"));
    assert_eq!(rules.resolve_reachability(), 0);
    assert_eq!(rules.calc_shortest_ref_length(), 2);
    assert_eq!(rules.rule_map.len(), 2);
    let rule = rules.get_ref_idx("rule").unwrap();
    assert_eq!(rules.rules.rules[rule].shortest_options, vec![0]);
    match &rules.rules.rules[rule].choices[0] {
        Item::Or(inner) => assert_eq!(inner.shortest_options, vec![1]),
        _ => panic!("the rule's option is not a choice"),
    }
}

#[test]
fn unsorted_option_indices_are_accepted() {
    let mut choice = Or::new();
    choice.add_item("aa");
    choice.add_item("b");
    choice.choice_indices = vec![1, 0, 1];
    let lengths: Vec<usize> = Vec::new();
    let calc = RefLenCalculator { rule_lengths: &lengths };
    assert_eq!(choice.calc_ref_length(&calc), 1);
    assert_eq!(choice.shortest_options, vec![0, 1]);
}

#[test]
fn chains_in_name_order_keep_their_names() {
    let mut rules = RuleSet::new();
    let rules = rules
        .add_rule("a", "x")
        .add_rule("b", Ref::new("a"))
        .add_rule("c", And::new("").add_item(Ref::new("a")).add_item(Ref::new("b")))
        .add_rule("w", Ref::new("z"))
        .add_rule("z", Ref::new("missing"));
    assert_eq!(rules.finalize(), true);
    assert_eq!(rules.get_ref_idx("a"), Some(0));
    assert_eq!(rules.get_ref_idx("b"), Some(1));
    assert_eq!(rules.get_ref_idx("c"), Some(2));
    assert_eq!(rules.get_ref_idx("w"), None);
    assert_eq!(rules.get_ref_idx("z"), None);
    assert_eq!(rules.rule_map.len(), 3);
}

#[test]
fn later_rounds_can_drop_rules_that_look_ahead() {
    let mut rules = RuleSet::new();
    let rules = rules
        .add_rule("a", Ref::new("b"))
        .add_rule("b", "x")
        .add_rule("z", Ref::new("missing"));
    assert_eq!(rules.finalize(), true);
    assert_eq!(rules.get_ref_idx("b"), Some(1));
    assert_eq!(rules.get_ref_idx("a"), None);
    assert_eq!(rules.rule_map.len(), 1);
}

#[test]
fn identifier_targets_of_named_rules_become_rules() {
    let mut rules = RuleSet::new();
    let rules = rules.add_rule("p", And::new(" ").add_item(Id::new("q")).add_item(Id::new("r")));
    assert_eq!(rules.finalize(), true);
    assert_eq!(rules.get_ref_idx("p"), Some(0));
    assert!(rules.get_ref_idx("q").is_some());
    assert!(rules.get_ref_idx("r").is_some());
    assert_eq!(rules.rule_map.len(), 3);
    assert_eq!(rules.rules.rules.len(), 3);
    for i in 1..3 {
        assert!(rules.rules.rules[i].keep);
        assert_eq!(rules.rules.rules[i].choices.len(), 0);
    }
}

#[test]
fn identifiers_aimed_at_chained_rules_succeed() {
    let mut rules = RuleSet::new();
    let rules = rules
        .add_rule("x", "v")
        .add_rule("y", And::new(" ").add_item(Id::new("x")).add_item(Ref::new("x")));
    assert_eq!(rules.finalize(), true);
    assert_eq!(rules.get_ref_idx("x"), Some(0));
    assert_eq!(rules.get_ref_idx("y"), Some(1));
    assert_eq!(rules.rules.rules.len(), 2);
}
