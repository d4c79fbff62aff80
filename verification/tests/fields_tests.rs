use std::time::{SystemTime, UNIX_EPOCH};

use resmack::fields::{And, Convertible, Int, Item, Mul, Opt, Or, Str};
use resmack::generate::ItemBuilder;
use resmack::random::Rand;
use resmack::rules::RuleList;

fn time_seed() -> u128 {
    SystemTime::now()
        .duration_since(UNIX_EPOCH)
        .expect("Time went backwards")
        .as_secs() as u128
}

fn build_with(item: Item, rand: &mut Rand) -> String {
    let mut builder = ItemBuilder::new(RuleList::new(), 10);
    let mut tmp_pre_vec: Vec<u8> = Vec::new();
    let mut tmp_vec: Vec<u8> = Vec::new();
    builder
        .build(&item, &mut tmp_pre_vec, &mut tmp_vec, rand)
        .expect("the item builds");
    tmp_pre_vec.extend(&tmp_vec);
    String::from_utf8(tmp_pre_vec).unwrap()
}

fn build(item: Item) -> String {
    let mut rand = Rand::new(time_seed());
    build_with(item, &mut rand)
}

fn repeated(word: &str, counts: std::ops::Range<usize>) -> Vec<String> {
    counts
        .map(|x| {
            let mut tmp = String::new();
            for _ in 0..x {
                tmp.push_str(word);
            }
            tmp
        })
        .collect()
}

#[test]
fn convert_string() {
    let item: Item = String::from("hello").convert();
    match item {
        Item::Direct(_) => (),
        _ => assert_eq!(false, true),
    };
}

#[test]
fn convert_usize() {
    let item: Item = 12usize.convert();
    match item {
        Item::Direct(_) => (),
        _ => assert_eq!(false, true),
    };
}

#[test]
fn convert_i32() {
    let item: Item = (-12i32).convert();
    match item {
        Item::Direct(_) => (),
        _ => assert_eq!(false, true),
    };
}

#[test]
fn and_full() {
    let and = And::new("|").add_item("Test").add_item("yoyoy");
    let res = build(and.convert());
    assert_eq!(res, "Test|yoyoy");
}

#[test]
fn and_macro() {
    let and = And::new("").add_item("hello").add_item("there");
    let res = build(and.convert());
    assert_eq!(res, "hellothere");
}

#[test]
fn and_test_sep() {
    let and = And::new("|").add_item("hello").add_item("there");
    let res = build(and.convert());
    assert_eq!(res, "hello|there");
}

#[test]
fn nested_and() {
    let and_inner = And::new("|").add_item("hello").add_item("there");
    let and_outer = And::new("-").add_item("hello").add_item(and_inner).add_item("there");
    let res = build(and_outer.convert());
    assert_eq!(res, "hello-hello|there-there");
}

#[test]
fn test_or() {
    let mut or = Or::new();
    or.add_item("hello");
    or.add_item("there");
    let res = build(or.convert());
    assert_eq!(res == "hello" || res == "there", true);
}

#[test]
fn test_str_full_macro() {
    let charset = "hello";
    for _ in 0..100 {
        let val = Str::new(1, 5, charset);
        let res = build(val.convert());
        assert_eq!(res.chars().all(|x| charset.contains(x)), true);
    }
}

#[test]
fn test_str_max_charset_macro() {
    let charset = "hello";
    for _ in 0..100 {
        let val = Str::new(0, 5, charset);
        let res = build(val.convert());
        assert_eq!(res.chars().all(|x| charset.contains(x)), true);
    }
}

#[test]
fn test_str_charset_macro() {
    let charset = "hello";
    for _ in 0..100 {
        let val = Str::new(0, 20, charset);
        let res = build(val.convert());
        assert_eq!(res.chars().all(|x| charset.contains(x)), true);
    }
}

#[test]
fn test_str_default_macro() {
    let charset = "abcdefghijklmnopqrstuvwxyzABCDEFGHIJKLMNOPQRSTUVWXYZ0123456789";
    for _ in 0..100 {
        let val = Str::new(0, 20, "abcdefghijklmnopqrstuvwxyzABCDEFGHIJKLMNOPQRSTUVWXYZ0123456789");
        let res = build(val.convert());
        assert_eq!(res.chars().all(|x| charset.contains(x)), true);
    }
}

#[test]
fn test_int_full_macro() {
    let choices = [3, 4, 5, 6];
    let choices: Vec<String> = choices.iter().map(|x| x.to_string()).collect();
    for _ in 0..100 {
        let val = Int::new(3, 7);
        let res = build(val.convert());
        assert_eq!(choices.contains(&res), true);
    }
}

#[test]
fn test_int_max_macro() {
    let choices = [0, 1, 2, 3, 4, 5, 6];
    let choices: Vec<String> = choices.iter().map(|x| x.to_string()).collect();
    for _ in 0..100 {
        let val = Int::new(0, 7);
        let res = build(val.convert());
        assert_eq!(choices.contains(&res), true);
    }
}

#[test]
fn test_int_default_macro() {
    let choices: Vec<String> = (0..1001).map(|x| x.to_string()).collect();
    for _ in 0..1000 {
        let val = Int::new(0, 1000);
        let res = build(val.convert());
        assert_eq!(choices.contains(&res), true);
    }
}

#[test]
fn test_opt() {
    let mut build_count = 0;
    let iters = 100;

    let mut rand = Rand::new(100);

    for _ in 0..iters {
        let val = Opt::new("a");
        let res = build_with(val.convert(), &mut rand);
        build_count += res.len();
    }
    assert_eq!(0 < build_count && build_count < iters, true);
}

#[test]
fn test_star_default() {
    let choices = repeated("hello", 0..10);
    for _ in 0..1000 {
        let val = Mul::new("hello", 0, 10);
        let res = build(val.convert());
        assert_eq!(choices.contains(&res), true);
    }
}

#[test]
fn test_star_max() {
    let max = 7;
    let choices = repeated("hello", 0..max);
    for _ in 0..1000 {
        let val = Mul::new("hello", 0, max);
        let res = build(val.convert());
        assert_eq!(choices.contains(&res), true);
    }
}

#[test]
fn test_star_max_min() {
    let min = 4;
    let max = 7;
    let choices = repeated("hello", min..max);
    for _ in 0..1000 {
        let val = Mul::new("hello", min, max);
        let res = build(val.convert());
        assert_eq!(choices.contains(&res), true);
    }
}

#[test]
fn test_plus_max() {
    let max = 7;
    let choices = repeated("hello", 1..max);
    for _ in 0..1000 {
        let val = Mul::new("hello", 1, max);
        let res = build(val.convert());
        assert_eq!(choices.contains(&res), true);
    }
}

#[test]
fn test_plus_default() {
    let min = 1;
    let max = 10;
    let choices = repeated("hello", min..max);
    for _ in 0..1000 {
        let val = Mul::new("hello", 1, 10);
        let res = build(val.convert());
        assert_eq!(choices.contains(&res), true);
    }
}
